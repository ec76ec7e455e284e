//! The surface syntax: a grammar, as spec functions over characters, and a
//! recursive-descent parser that follows it.
//!
//! ```text
//! module  ::= node*                       (stray ')' between nodes is skipped)
//! node    ::= number | form | name
//! number  ::= digit+                      (at most i32::MAX)
//! name    ::= (letter | '_')+
//! form    ::= "define" '(' name node ')'
//!           | binop '(' node node ')'
//!           | "print" '(' node* ')'
//!           | ("if" | "while") '(' node node* ')'
//!           | "for" '(' node node node node* ')'
//!           | "fn" '(' name '(' name* ')' node* ')'
//! binop   ::= "add" | "sub" | "equal" | "notequal" | "less" | "more"
//! ```
//!
//! Whitespace may stand between any two tokens.

use vstd::prelude::*;
use crate::ast::{BinOp, Node, Term, names_of, terms_of};
use crate::text::{chars_of, push_char};

verus! {

/// Why a text is not a program. Positions count characters from the start.
#[derive(Clone, Copy, Debug, PartialEq, Eq, Structural)]
pub enum ParseError {
    /// The text ended inside a construct.
    UnexpectedEnd,
    /// A character that cannot begin a node.
    UnexpectedChar(usize),
    /// A keyword that is not followed by `(`.
    ExpectedOpen(usize),
    /// A `)` was needed here.
    ExpectedClose(usize),
    /// A name was needed here.
    ExpectedName(usize),
    /// A numeral above `i32::MAX`.
    NumberTooLarge(usize),
}

/// Classes of characters that the parser scans runs of.
#[derive(Clone, Copy, Debug, PartialEq, Eq, Structural)]
pub enum CharClass {
    /// Whitespace.
    Space,
    /// Whitespace or `)`: what is skipped before a node.
    Filler,
    /// ASCII decimal digits.
    Digit,
    /// ASCII letters and `_`.
    Word,
}

/// Whitespace: the characters with Unicode's `White_Space` property.
pub open spec fn is_space(c: char) -> bool {
    ||| '\u{9}' <= c <= '\u{D}'
    ||| c == ' '
    ||| c == '\u{85}'
    ||| c == '\u{A0}'
    ||| c == '\u{1680}'
    ||| '\u{2000}' <= c <= '\u{200A}'
    ||| c == '\u{2028}'
    ||| c == '\u{2029}'
    ||| c == '\u{202F}'
    ||| c == '\u{205F}'
    ||| c == '\u{3000}'
}

/// An ASCII decimal digit.
pub open spec fn is_digit(c: char) -> bool {
    '0' <= c <= '9'
}

/// A character of a keyword or name: an ASCII letter or `_`.
pub open spec fn is_word_char(c: char) -> bool {
    ('a' <= c <= 'z') || ('A' <= c <= 'Z') || c == '_'
}

/// Whether `c` belongs to class `k`.
pub open spec fn in_class(k: CharClass, c: char) -> bool {
    match k {
        CharClass::Space => is_space(c),
        CharClass::Filler => is_space(c) || c == ')',
        CharClass::Digit => is_digit(c),
        CharClass::Word => is_word_char(c),
    }
}

/// The length of the longest run of characters of class `k` that starts at `i`.
pub open spec fn run_len(s: Seq<char>, i: nat, k: CharClass) -> nat
    decreases s.len() - i,
{
    if i < s.len() && in_class(k, s[i as int]) {
        1 + run_len(s, i + 1, k)
    } else {
        0
    }
}

/// A run stays inside the text, holds only characters of its class, and is
/// not followed by one.
pub proof fn lemma_run_len(s: Seq<char>, i: nat, k: CharClass)
    requires
        i <= s.len(),
    ensures
        i + run_len(s, i, k) <= s.len(),
        forall|p: int| i <= p < i + run_len(s, i, k) ==> in_class(k, #[trigger] s[p]),
        i + run_len(s, i, k) < s.len() ==> !in_class(k, s[(i + run_len(s, i, k)) as int]),
    decreases s.len() - i,
{
    if i < s.len() && in_class(k, s[i as int]) {
        lemma_run_len(s, i + 1, k);
    }
}

/// The number that a string of decimal digits denotes.
pub open spec fn numeral_value(d: Seq<char>) -> nat
    decreases d.len(),
{
    if d.len() == 0 {
        0
    } else {
        numeral_value(d.drop_last()) * 10 + (d.last() as nat - '0' as nat) as nat
    }
}

/// The kinds of keyword forms.
#[derive(Clone, Copy, Debug, PartialEq, Eq, Structural)]
pub enum Form {
    Define,
    Binary(BinOp),
    Print,
    If,
    While,
    For,
    DefineFn,
}

/// The form that a word introduces, if it is a keyword.
pub open spec fn form_of(w: Seq<char>) -> Option<Form> {
    if w == "define"@ {
        Some(Form::Define)
    } else if w == "add"@ {
        Some(Form::Binary(BinOp::Add))
    } else if w == "sub"@ {
        Some(Form::Binary(BinOp::Sub))
    } else if w == "equal"@ {
        Some(Form::Binary(BinOp::Equal))
    } else if w == "notequal"@ {
        Some(Form::Binary(BinOp::NotEqual))
    } else if w == "less"@ {
        Some(Form::Binary(BinOp::Less))
    } else if w == "more"@ {
        Some(Form::Binary(BinOp::More))
    } else if w == "print"@ {
        Some(Form::Print)
    } else if w == "if"@ {
        Some(Form::If)
    } else if w == "while"@ {
        Some(Form::While)
    } else if w == "for"@ {
        Some(Form::For)
    } else if w == "fn"@ {
        Some(Form::DefineFn)
    } else {
        None
    }
}

/// Expects `(` after optional whitespace at `i`; the position after it.
pub open spec fn open_paren(s: Seq<char>, i: nat) -> Result<nat, ParseError> {
    let j = i + run_len(s, i, CharClass::Space);
    if j >= s.len() {
        Err(ParseError::UnexpectedEnd)
    } else if s[j as int] != '(' {
        Err(ParseError::ExpectedOpen(j as usize))
    } else {
        Ok(j + 1)
    }
}

/// Expects `)` after optional whitespace at `i`; the position after it.
pub open spec fn close_paren(s: Seq<char>, i: nat) -> Result<nat, ParseError> {
    let j = i + run_len(s, i, CharClass::Space);
    if j >= s.len() {
        Err(ParseError::UnexpectedEnd)
    } else if s[j as int] != ')' {
        Err(ParseError::ExpectedClose(j as usize))
    } else {
        Ok(j + 1)
    }
}

/// Expects a name after optional whitespace at `i`; the name and the
/// position after it.
pub open spec fn name_at(s: Seq<char>, i: nat) -> Result<(Seq<char>, nat), ParseError> {
    let j = i + run_len(s, i, CharClass::Space);
    let k = j + run_len(s, j, CharClass::Word);
    if j >= s.len() {
        Err(ParseError::UnexpectedEnd)
    } else if k == j {
        Err(ParseError::ExpectedName(j as usize))
    } else {
        Ok((s.subrange(j as int, k as int), k))
    }
}

/// Names up to and including a closing `)`, from `i`.
pub open spec fn names_until_close(s: Seq<char>, i: nat) -> Result<(Seq<Seq<char>>, nat), ParseError>
    decreases s.len() - i,
{
    if s.len() < i {
        Err(ParseError::UnexpectedEnd)
    } else {
        proof {
            lemma_run_len(s, i, CharClass::Space);
        }
        let j = i + run_len(s, i, CharClass::Space);
        if j == s.len() {
            Err(ParseError::UnexpectedEnd)
        } else if s[j as int] == ')' {
            Ok((Seq::empty(), j + 1))
        } else {
            proof {
                lemma_run_len(s, j, CharClass::Word);
            }
            let k = j + run_len(s, j, CharClass::Word);
            if k == j {
                Err(ParseError::ExpectedName(j as usize))
            } else {
                match names_until_close(s, k) {
                    Err(e) => Err(e),
                    Ok((ns, z)) => Ok((seq![s.subrange(j as int, k as int)] + ns, z)),
                }
            }
        }
    }
}

/// Parses one node from `i`: `None` when only filler is left.
pub open spec fn parse_node(s: Seq<char>, i: nat) -> Result<Option<(Term, nat)>, ParseError>
    decreases s.len() - i, 0nat,
{
    if s.len() <= i {
        Ok(None)
    } else {
        proof {
            lemma_run_len(s, i, CharClass::Filler);
        }
        let j = i + run_len(s, i, CharClass::Filler);
        if j == s.len() {
            Ok(None)
        } else if is_digit(s[j as int]) {
            let k = j + run_len(s, j, CharClass::Digit);
            let v = numeral_value(s.subrange(j as int, k as int));
            if v > i32::MAX {
                Err(ParseError::NumberTooLarge(j as usize))
            } else {
                Ok(Some((Term::Number(v as i32), k)))
            }
        } else {
            proof {
                lemma_run_len(s, j, CharClass::Word);
            }
            let k = j + run_len(s, j, CharClass::Word);
            if k == j {
                Err(ParseError::UnexpectedChar(j as usize))
            } else {
                match form_of(s.subrange(j as int, k as int)) {
                    None => Ok(Some((Term::Ident(s.subrange(j as int, k as int)), k))),
                    Some(f) => parse_form(s, f, k),
                }
            }
        }
    }
}

/// A node that must be present at `i`.
pub open spec fn required(s: Seq<char>, i: nat) -> Result<(Term, nat), ParseError>
    decreases s.len() - i, 1nat,
{
    match parse_node(s, i) {
        Err(e) => Err(e),
        Ok(None) => Err(ParseError::UnexpectedEnd),
        Ok(Some(r)) => Ok(r),
    }
}

/// Whether a node that began at `from` and ended at `to` consumed input and
/// stayed inside the text. The grammar continues after a node only then,
/// which keeps its recursion well founded; [`lemma_node_advances`] shows
/// that every parsed node passes this check.
pub open spec fn advanced(s: Seq<char>, from: nat, to: nat) -> bool {
    from < to <= s.len()
}

/// Nodes up to and including a closing `)`, from `i`.
pub open spec fn parse_body(s: Seq<char>, i: nat) -> Result<(Seq<Term>, nat), ParseError>
    decreases s.len() - i, 1nat,
{
    if s.len() < i {
        Err(ParseError::UnexpectedEnd)
    } else {
        proof {
            lemma_run_len(s, i, CharClass::Space);
        }
        let j = i + run_len(s, i, CharClass::Space);
        if j == s.len() {
            Err(ParseError::UnexpectedEnd)
        } else if s[j as int] == ')' {
            Ok((Seq::empty(), j + 1))
        } else {
            match parse_node(s, j) {
                Err(e) => Err(e),
                Ok(None) => Err(ParseError::UnexpectedEnd),
                Ok(Some((t, k))) => if advanced(s, j, k) {
                    match parse_body(s, k) {
                        Err(e) => Err(e),
                        Ok((ts, z)) => Ok((seq![t] + ts, z)),
                    }
                } else {
                    Err(ParseError::UnexpectedEnd)
                },
            }
        }
    }
}

/// The rest of a keyword form `f` whose keyword ends at `k`.
pub open spec fn parse_form(s: Seq<char>, f: Form, k: nat) -> Result<Option<(Term, nat)>, ParseError>
    decreases s.len() - k, 0nat,
{
    if s.len() < k {
        Err(ParseError::UnexpectedEnd)
    } else {
        proof {
            lemma_run_len(s, k, CharClass::Space);
        }
        match open_paren(s, k) {
            Err(e) => Err(e),
            Ok(p) => match f {
                Form::Define => match name_at(s, p) {
                    Err(e) => Err(e),
                    Ok((x, q)) => {
                        proof {
                            lemma_run_len(s, p, CharClass::Space);
                            lemma_run_len(s, p + run_len(s, p, CharClass::Space), CharClass::Word);
                        }
                        match required(s, q) {
                            Err(e) => Err(e),
                            Ok((v, r)) => match close_paren(s, r) {
                                Err(e) => Err(e),
                                Ok(z) => Ok(Some((Term::Define(x, Box::new(v)), z))),
                            },
                        }
                    },
                },
                Form::Binary(op) => match required(s, p) {
                    Err(e) => Err(e),
                    Ok((a, q)) => if advanced(s, p, q) {
                        match required(s, q) {
                            Err(e) => Err(e),
                            Ok((b, r)) => match close_paren(s, r) {
                                Err(e) => Err(e),
                                Ok(z) => Ok(Some((Term::Binary(op, Box::new(a), Box::new(b)), z))),
                            },
                        }
                    } else {
                        Err(ParseError::UnexpectedEnd)
                    },
                },
                Form::Print => match parse_body(s, p) {
                    Err(e) => Err(e),
                    Ok((args, z)) => Ok(Some((Term::Print(args), z))),
                },
                Form::If | Form::While => match required(s, p) {
                    Err(e) => Err(e),
                    Ok((c, q)) => if advanced(s, p, q) {
                        match parse_body(s, q) {
                            Err(e) => Err(e),
                            Ok((body, z)) => Ok(Some((
                                if f == Form::If {
                                    Term::If(Box::new(c), body)
                                } else {
                                    Term::While(Box::new(c), body)
                                },
                                z,
                            ))),
                        }
                    } else {
                        Err(ParseError::UnexpectedEnd)
                    },
                },
                Form::For => match required(s, p) {
                    Err(e) => Err(e),
                    Ok((a, q1)) => if advanced(s, p, q1) {
                        match required(s, q1) {
                            Err(e) => Err(e),
                            Ok((b, q2)) => if advanced(s, q1, q2) {
                                match required(s, q2) {
                                    Err(e) => Err(e),
                                    Ok((d, q3)) => if advanced(s, q2, q3) {
                                        match parse_body(s, q3) {
                                            Err(e) => Err(e),
                                            Ok((body, z)) => Ok(Some((
                                                Term::For(Box::new(a), Box::new(b), Box::new(d), body),
                                                z,
                                            ))),
                                        }
                                    } else {
                                        Err(ParseError::UnexpectedEnd)
                                    },
                                }
                            } else {
                                Err(ParseError::UnexpectedEnd)
                            },
                        }
                    } else {
                        Err(ParseError::UnexpectedEnd)
                    },
                },
                Form::DefineFn => match name_at(s, p) {
                    Err(e) => Err(e),
                    Ok((name, q)) => {
                        proof {
                            lemma_run_len(s, p, CharClass::Space);
                            lemma_run_len(s, p + run_len(s, p, CharClass::Space), CharClass::Word);
                        }
                        match open_paren(s, q) {
                            Err(e) => Err(e),
                            Ok(q2) => {
                                proof {
                                    lemma_run_len(s, q, CharClass::Space);
                                }
                                match names_until_close(s, q2) {
                                    Err(e) => Err(e),
                                    Ok((params, q3)) => if advanced(s, q2, q3) {
                                        match parse_body(s, q3) {
                                            Err(e) => Err(e),
                                            Ok((body, z)) => Ok(Some((Term::DefineFn(name, params, body), z))),
                                        }
                                    } else {
                                        Err(ParseError::UnexpectedEnd)
                                    },
                                }
                            },
                        }
                    },
                },
            },
        }
    }
}

/// The nodes of a module, from `i` to the end of the text.
pub open spec fn parse_nodes(s: Seq<char>, i: nat) -> Result<Seq<Term>, ParseError>
    decreases s.len() - i,
{
    match parse_node(s, i) {
        Err(e) => Err(e),
        Ok(None) => Ok(Seq::empty()),
        Ok(Some((t, k))) => if advanced(s, i, k) {
            match parse_nodes(s, k) {
                Err(e) => Err(e),
                Ok(ts) => Ok(seq![t] + ts),
            }
        } else {
            Err(ParseError::UnexpectedEnd)
        },
    }
}

/// The module that a whole text denotes.
pub open spec fn parse_module(s: Seq<char>) -> Result<Seq<Term>, ParseError> {
    parse_nodes(s, 0)
}

/// Every parsed node consumes input and ends inside the text, so the
/// grammar's `advanced` checks hold of every node it parses.
pub proof fn lemma_node_advances(s: Seq<char>, i: nat)
    ensures
        parse_node(s, i) matches Ok(Some((_, k))) ==> i < k <= s.len(),
    decreases s.len() - i, 0nat,
{
    if i < s.len() {
        lemma_run_len(s, i, CharClass::Filler);
        let j = i + run_len(s, i, CharClass::Filler);
        if j < s.len() {
            lemma_run_len(s, j, CharClass::Digit);
            lemma_run_len(s, j, CharClass::Word);
            let k = j + run_len(s, j, CharClass::Word);
            if !is_digit(s[j as int]) && k > j {
                if let Some(f) = form_of(s.subrange(j as int, k as int)) {
                    lemma_form_advances(s, f, k);
                }
            }
        }
    }
}

/// A node that must be present consumes input and ends inside the text.
proof fn lemma_required_advances(s: Seq<char>, i: nat)
    ensures
        required(s, i) matches Ok((_, k)) ==> i < k <= s.len(),
    decreases s.len() - i, 1nat,
{
    lemma_node_advances(s, i);
}

/// A list closed by `)` consumes input and ends inside the text.
proof fn lemma_body_advances(s: Seq<char>, i: nat)
    ensures
        parse_body(s, i) matches Ok((_, z)) ==> i < z <= s.len(),
    decreases s.len() - i, 1nat,
{
    if i <= s.len() {
        lemma_run_len(s, i, CharClass::Space);
        let j = i + run_len(s, i, CharClass::Space);
        if j < s.len() && s[j as int] != ')' {
            if let Ok(Some((_, k))) = parse_node(s, j) {
                if advanced(s, j, k) {
                    lemma_body_advances(s, k);
                }
            }
        }
    }
}

/// A list of names closed by `)` ends inside the text, after its start.
proof fn lemma_names_advance(s: Seq<char>, i: nat)
    ensures
        names_until_close(s, i) matches Ok((_, z)) ==> i < z <= s.len(),
    decreases s.len() - i,
{
    if i <= s.len() {
        lemma_run_len(s, i, CharClass::Space);
        let j = i + run_len(s, i, CharClass::Space);
        if j < s.len() && s[j as int] != ')' {
            lemma_run_len(s, j, CharClass::Word);
            let k = j + run_len(s, j, CharClass::Word);
            if k > j {
                lemma_names_advance(s, k);
            }
        }
    }
}

/// The rest of a keyword form consumes input and ends inside the text.
#[verifier::rlimit(60)]
proof fn lemma_form_advances(s: Seq<char>, f: Form, k: nat)
    requires
        k <= s.len(),
    ensures
        parse_form(s, f, k) matches Ok(Some((_, z))) ==> k < z <= s.len(),
    decreases s.len() - k, 0nat,
{
    lemma_run_len(s, k, CharClass::Space);
    if let Ok(p) = open_paren(s, k) {
        lemma_run_len(s, p, CharClass::Space);
        lemma_run_len(s, p + run_len(s, p, CharClass::Space), CharClass::Word);
        lemma_required_advances(s, p);
        lemma_body_advances(s, p);
        match f {
            Form::Define => {
                if let Ok((_, q)) = name_at(s, p) {
                    lemma_required_advances(s, q);
                    if let Ok((_, r)) = required(s, q) {
                        lemma_run_len(s, r, CharClass::Space);
                    }
                }
            },
            Form::Binary(_) => {
                if let Ok((_, q)) = required(s, p) {
                    lemma_required_advances(s, q);
                    if let Ok((_, r)) = required(s, q) {
                        lemma_run_len(s, r, CharClass::Space);
                    }
                }
            },
            Form::Print => {},
            Form::If | Form::While => {
                if let Ok((_, q)) = required(s, p) {
                    lemma_body_advances(s, q);
                }
            },
            Form::For => {
                if let Ok((_, q1)) = required(s, p) {
                    lemma_required_advances(s, q1);
                    if let Ok((_, q2)) = required(s, q1) {
                        lemma_required_advances(s, q2);
                        if let Ok((_, q3)) = required(s, q2) {
                            lemma_body_advances(s, q3);
                        }
                    }
                }
            },
            Form::DefineFn => {
                if let Ok((_, q)) = name_at(s, p) {
                    lemma_run_len(s, q, CharClass::Space);
                    if let Ok(q2) = open_paren(s, q) {
                        lemma_names_advance(s, q2);
                        if let Ok((_, q3)) = names_until_close(s, q2) {
                            lemma_body_advances(s, q3);
                        }
                    }
                }
            },
        }
    }
}

/// A text of nothing but whitespace and `)` (the empty text included) is
/// the empty module.
pub proof fn lemma_filler_only_is_empty(s: Seq<char>)
    requires
        forall|p: int| 0 <= p < s.len() ==> in_class(CharClass::Filler, #[trigger] s[p]),
    ensures
        parse_module(s) == Ok::<Seq<Term>, ParseError>(Seq::empty()),
{
    lemma_run_len(s, 0, CharClass::Filler);
}

/// A list of nodes with no `)` anywhere after its start is rejected: it
/// never closes.
pub proof fn lemma_unclosed_body_fails(s: Seq<char>, i: nat)
    requires
        i <= s.len(),
        forall|p: int| i <= p < s.len() ==> #[trigger] s[p] != ')',
    ensures
        parse_body(s, i) is Err,
    decreases s.len() - i,
{
    lemma_run_len(s, i, CharClass::Space);
    let j = i + run_len(s, i, CharClass::Space);
    if j < s.len() {
        match parse_node(s, j) {
            Ok(Some((t, k))) => {
                if advanced(s, j, k) {
                    lemma_unclosed_body_fails(s, k);
                }
            },
            _ => {},
        }
    }
}

/// A list of names with no `)` anywhere after its start is rejected.
proof fn lemma_unclosed_names_fail(s: Seq<char>, i: nat)
    requires
        i <= s.len(),
        forall|p: int| i <= p < s.len() ==> #[trigger] s[p] != ')',
    ensures
        names_until_close(s, i) is Err,
    decreases s.len() - i,
{
    lemma_run_len(s, i, CharClass::Space);
    let j = i + run_len(s, i, CharClass::Space);
    if j < s.len() {
        lemma_run_len(s, j, CharClass::Word);
        let k = j + run_len(s, j, CharClass::Word);
        if k > j {
            lemma_unclosed_names_fail(s, k);
        }
    }
}

/// `)` expected at a place with no `)` after it is an error.
proof fn lemma_unclosed_paren_fails(s: Seq<char>, r: nat)
    requires
        r <= s.len(),
        forall|p: int| r <= p < s.len() ==> #[trigger] s[p] != ')',
    ensures
        close_paren(s, r) is Err,
{
    lemma_run_len(s, r, CharClass::Space);
}

/// The rest of a keyword form with no `)` anywhere after the keyword is
/// rejected: every form ends with a `)`.
#[verifier::rlimit(60)]
pub proof fn lemma_unclosed_form_fails(s: Seq<char>, f: Form, k: nat)
    requires
        k <= s.len(),
        forall|p: int| k <= p < s.len() ==> #[trigger] s[p] != ')',
    ensures
        parse_form(s, f, k) is Err,
{
    lemma_run_len(s, k, CharClass::Space);
    if let Ok(p) = open_paren(s, k) {
        lemma_run_len(s, p, CharClass::Space);
        lemma_run_len(s, p + run_len(s, p, CharClass::Space), CharClass::Word);
        lemma_required_advances(s, p);
        match f {
            Form::Define => {
                if let Ok((_, q)) = name_at(s, p) {
                    lemma_required_advances(s, q);
                    if let Ok((_, r)) = required(s, q) {
                        lemma_unclosed_paren_fails(s, r);
                    }
                }
            },
            Form::Binary(_) => {
                if let Ok((_, q)) = required(s, p) {
                    lemma_required_advances(s, q);
                    if let Ok((_, r)) = required(s, q) {
                        lemma_unclosed_paren_fails(s, r);
                    }
                }
            },
            Form::Print => {
                lemma_unclosed_body_fails(s, p);
            },
            Form::If | Form::While => {
                if let Ok((_, q)) = required(s, p) {
                    lemma_unclosed_body_fails(s, q);
                }
            },
            Form::For => {
                if let Ok((_, q1)) = required(s, p) {
                    lemma_required_advances(s, q1);
                    if let Ok((_, q2)) = required(s, q1) {
                        lemma_required_advances(s, q2);
                        if let Ok((_, q3)) = required(s, q2) {
                            lemma_unclosed_body_fails(s, q3);
                        }
                    }
                }
            },
            Form::DefineFn => {
                if let Ok((_, q)) = name_at(s, p) {
                    lemma_run_len(s, q, CharClass::Space);
                    if let Ok(q2) = open_paren(s, q) {
                        lemma_unclosed_names_fail(s, q2);
                    }
                }
            },
        }
    }
}

/// A text that opens `print(` and never closes it is rejected, whatever
/// follows the parenthesis.
pub proof fn lemma_unterminated_print_fails(rest: Seq<char>)
    requires
        forall|p: int| 0 <= p < rest.len() ==> #[trigger] rest[p] != ')',
    ensures
        parse_module(seq!['p', 'r', 'i', 'n', 't', '('] + rest) is Err,
{
    let s = seq!['p', 'r', 'i', 'n', 't', '('] + rest;
    assert(s[0] == 'p' && s[1] == 'r' && s[2] == 'i' && s[3] == 'n' && s[4] == 't' && s[5] == '(');
    assert(run_len(s, 0, CharClass::Filler) == 0);
    assert(run_len(s, 5, CharClass::Word) == 0);
    assert(run_len(s, 4, CharClass::Word) == 1);
    assert(run_len(s, 3, CharClass::Word) == 2);
    assert(run_len(s, 2, CharClass::Word) == 3);
    assert(run_len(s, 1, CharClass::Word) == 4);
    assert(run_len(s, 0, CharClass::Word) == 5);
    assert(s.subrange(0, 5) =~= seq!['p', 'r', 'i', 'n', 't']);
    reveal_strlit("define");
    reveal_strlit("add");
    reveal_strlit("sub");
    reveal_strlit("equal");
    reveal_strlit("notequal");
    reveal_strlit("less");
    reveal_strlit("more");
    reveal_strlit("print");
    let w = s.subrange(0, 5);
    assert(w.len() != "define"@.len());
    assert(w.len() != "add"@.len());
    assert(w.len() != "sub"@.len());
    assert(w[0] != "equal"@[0]);
    assert(w.len() != "notequal"@.len());
    assert(w.len() != "less"@.len());
    assert(w.len() != "more"@.len());
    assert(w =~= "print"@);
    assert(form_of(w) == Some(Form::Print));
    assert(run_len(s, 5, CharClass::Space) == 0);
    assert(open_paren(s, 5) == Ok::<nat, ParseError>(6));
    assert forall|p: int| 6 <= p < s.len() implies #[trigger] s[p] != ')' by {
        assert(s[p] == rest[p - 6]);
    }
    lemma_unclosed_body_fails(s, 6);
    assert(parse_form(s, Form::Print, 5) is Err);
    assert(parse_node(s, 0) is Err);
}

/// The model of a parsed node and where it ended.
pub open spec fn node_view(r: Result<Option<(Node, usize)>, ParseError>) -> Result<Option<(Term, nat)>, ParseError> {
    match r {
        Ok(Some((n, k))) => Ok(Some((n@, k as nat))),
        Ok(None) => Ok(None),
        Err(e) => Err(e),
    }
}

/// The model of a required node and where it ended.
pub open spec fn pair_view(r: Result<(Node, usize), ParseError>) -> Result<(Term, nat), ParseError> {
    match r {
        Ok((n, k)) => Ok((n@, k as nat)),
        Err(e) => Err(e),
    }
}

/// The model of a parsed list of nodes and where it ended.
pub open spec fn body_view(r: Result<(Vec<Node>, usize), ParseError>) -> Result<(Seq<Term>, nat), ParseError> {
    match r {
        Ok((v, k)) => Ok((terms_of(v@), k as nat)),
        Err(e) => Err(e),
    }
}

/// The model of a parsed list of names and where it ended.
pub open spec fn names_view(r: Result<(Vec<String>, usize), ParseError>) -> Result<(Seq<Seq<char>>, nat), ParseError> {
    match r {
        Ok((v, k)) => Ok((names_of(v@), k as nat)),
        Err(e) => Err(e),
    }
}

/// The model of a parsed module.
pub open spec fn module_view(r: Result<Vec<Node>, ParseError>) -> Result<Seq<Term>, ParseError> {
    match r {
        Ok(v) => Ok(terms_of(v@)),
        Err(e) => Err(e),
    }
}

/// `r` with `acc` put before the items it holds.
pub open spec fn prefixed<T>(acc: Seq<T>, r: Result<(Seq<T>, nat), ParseError>) -> Result<(Seq<T>, nat), ParseError> {
    match r {
        Ok((ts, z)) => Ok((acc + ts, z)),
        Err(e) => Err(e),
    }
}

/// Whether `c` is whitespace.
fn space_char(c: char) -> (r: bool)
    ensures
        r == is_space(c),
{
    ('\u{9}' <= c && c <= '\u{D}') || c == ' ' || c == '\u{85}' || c == '\u{A0}' || c == '\u{1680}'
        || ('\u{2000}' <= c && c <= '\u{200A}') || c == '\u{2028}' || c == '\u{2029}' || c == '\u{202F}'
        || c == '\u{205F}' || c == '\u{3000}'
}

/// Whether `c` belongs to class `k`.
fn class_has(k: CharClass, c: char) -> (r: bool)
    ensures
        r == in_class(k, c),
{
    match k {
        CharClass::Space => space_char(c),
        CharClass::Filler => space_char(c) || c == ')',
        CharClass::Digit => '0' <= c && c <= '9',
        CharClass::Word => ('a' <= c && c <= 'z') || ('A' <= c && c <= 'Z') || c == '_',
    }
}

/// The end of the run of class `k` that starts at `i`.
fn scan(src: &[char], i: usize, k: CharClass) -> (r: usize)
    requires
        i <= src@.len(),
    ensures
        r == i + run_len(src@, i as nat, k),
        r <= src@.len(),
{
    proof {
        lemma_run_len(src@, i as nat, k);
    }
    let mut p: usize = i;
    while p < src.len() && class_has(k, src[p])
        invariant
            i <= p <= src@.len(),
            run_len(src@, i as nat, k) == (p - i) + run_len(src@, p as nat, k),
        decreases src@.len() - p,
    {
        p += 1;
    }
    p
}

/// The value of the digits `src[j..k]`, or `None` above `i32::MAX`.
fn numeral_at(src: &[char], j: usize, k: usize) -> (r: Option<i32>)
    requires
        j <= k <= src@.len(),
        forall|p: int| j <= p < k ==> is_digit(#[trigger] src@[p]),
    ensures
        r == if numeral_value(src@.subrange(j as int, k as int)) > i32::MAX {
            None::<i32>
        } else {
            Some(numeral_value(src@.subrange(j as int, k as int)) as i32)
        },
{
    let mut acc: u64 = 0;
    let mut p: usize = j;
    assert(src@.subrange(j as int, j as int).len() == 0);
    while p < k
        invariant
            j <= p <= k <= src@.len(),
            forall|q: int| j <= q < k ==> is_digit(#[trigger] src@[q]),
            numeral_value(src@.subrange(j as int, p as int)) >= 0x8000_0000 ==> acc == 0x8000_0000,
            numeral_value(src@.subrange(j as int, p as int)) < 0x8000_0000 ==> acc == numeral_value(
                src@.subrange(j as int, p as int),
            ),
        decreases k - p,
    {
        let c = src[p];
        let d: u64 = (c as u32 - 48) as u64;
        proof {
            assert(src@.subrange(j as int, p + 1).drop_last() =~= src@.subrange(j as int, p as int));
            assert(src@.subrange(j as int, p + 1).last() == c);
        }
        if acc < 0x8000_0000 {
            acc = acc * 10 + d;
            if acc > 0x8000_0000 {
                acc = 0x8000_0000;
            }
        }
        p += 1;
    }
    if acc > 0x7fff_ffff {
        None
    } else {
        Some(acc as i32)
    }
}

/// Whether `src[j..k]` is the keyword `kw`.
fn word_is(src: &[char], j: usize, k: usize, kw: &str) -> (r: bool)
    requires
        j <= k <= src@.len(),
    ensures
        r == (src@.subrange(j as int, k as int) == kw@),
{
    let n = kw.unicode_len();
    if k - j != n {
        return false;
    }
    let mut p: usize = 0;
    while p < n
        invariant
            n == kw@.len(),
            k - j == n,
            j <= k <= src@.len(),
            p <= n,
            forall|q: int| 0 <= q < p ==> src@[j + q] == kw@[q],
        decreases n - p,
    {
        if src[j + p] != kw.get_char(p) {
            assert(src@.subrange(j as int, k as int)[p as int] != kw@[p as int]);
            return false;
        }
        p += 1;
    }
    assert(src@.subrange(j as int, k as int) =~= kw@);
    true
}

/// The form that `src[j..k]` introduces, if it is a keyword.
fn form_at(src: &[char], j: usize, k: usize) -> (r: Option<Form>)
    requires
        j <= k <= src@.len(),
    ensures
        r == form_of(src@.subrange(j as int, k as int)),
{
    if word_is(src, j, k, "define") {
        Some(Form::Define)
    } else if word_is(src, j, k, "add") {
        Some(Form::Binary(BinOp::Add))
    } else if word_is(src, j, k, "sub") {
        Some(Form::Binary(BinOp::Sub))
    } else if word_is(src, j, k, "equal") {
        Some(Form::Binary(BinOp::Equal))
    } else if word_is(src, j, k, "notequal") {
        Some(Form::Binary(BinOp::NotEqual))
    } else if word_is(src, j, k, "less") {
        Some(Form::Binary(BinOp::Less))
    } else if word_is(src, j, k, "more") {
        Some(Form::Binary(BinOp::More))
    } else if word_is(src, j, k, "print") {
        Some(Form::Print)
    } else if word_is(src, j, k, "if") {
        Some(Form::If)
    } else if word_is(src, j, k, "while") {
        Some(Form::While)
    } else if word_is(src, j, k, "for") {
        Some(Form::For)
    } else if word_is(src, j, k, "fn") {
        Some(Form::DefineFn)
    } else {
        None
    }
}

/// The characters `src[j..k]` as a string.
fn string_of(src: &[char], j: usize, k: usize) -> (r: String)
    requires
        j <= k <= src@.len(),
    ensures
        r@ == src@.subrange(j as int, k as int),
{
    let mut r = String::new();
    let mut p: usize = j;
    while p < k
        invariant
            j <= p <= k <= src@.len(),
            r@ == src@.subrange(j as int, p as int),
        decreases k - p,
    {
        push_char(&mut r, src[p]);
        p += 1;
        assert(r@ =~= src@.subrange(j as int, p as int));
    }
    r
}

/// Expects `(` after optional whitespace at `i`.
fn open_at(src: &[char], i: usize) -> (r: Result<usize, ParseError>)
    requires
        i <= src@.len(),
    ensures
        match r {
            Ok(p) => open_paren(src@, i as nat) == Ok::<nat, ParseError>(p as nat),
            Err(e) => open_paren(src@, i as nat) == Err::<nat, ParseError>(e),
        },
{
    let j = scan(src, i, CharClass::Space);
    if j >= src.len() {
        Err(ParseError::UnexpectedEnd)
    } else if src[j] != '(' {
        Err(ParseError::ExpectedOpen(j))
    } else {
        Ok(j + 1)
    }
}

/// Expects `)` after optional whitespace at `i`.
fn close_at(src: &[char], i: usize) -> (r: Result<usize, ParseError>)
    requires
        i <= src@.len(),
    ensures
        match r {
            Ok(p) => close_paren(src@, i as nat) == Ok::<nat, ParseError>(p as nat),
            Err(e) => close_paren(src@, i as nat) == Err::<nat, ParseError>(e),
        },
{
    let j = scan(src, i, CharClass::Space);
    if j >= src.len() {
        Err(ParseError::UnexpectedEnd)
    } else if src[j] != ')' {
        Err(ParseError::ExpectedClose(j))
    } else {
        Ok(j + 1)
    }
}

/// Expects a name after optional whitespace at `i`.
fn name_from(src: &[char], i: usize) -> (r: Result<(String, usize), ParseError>)
    requires
        i <= src@.len(),
    ensures
        match r {
            Ok((x, p)) => p <= src@.len() && name_at(src@, i as nat) == Ok::<(Seq<char>, nat), ParseError>((x@, p as nat)),
            Err(e) => name_at(src@, i as nat) == Err::<(Seq<char>, nat), ParseError>(e),
        },
{
    let j = scan(src, i, CharClass::Space);
    let k = scan(src, j, CharClass::Word);
    if j >= src.len() {
        Err(ParseError::UnexpectedEnd)
    } else if k == j {
        Err(ParseError::ExpectedName(j))
    } else {
        Ok((string_of(src, j, k), k))
    }
}

/// Names up to and including a closing `)`, from `i`.
fn names_from(src: &[char], i: usize) -> (r: Result<(Vec<String>, usize), ParseError>)
    requires
        i <= src@.len(),
    ensures
        names_view(r) == names_until_close(src@, i as nat),
        r matches Ok((_, z)) ==> z <= src@.len(),
{
    let ghost s = src@;
    let mut acc: Vec<String> = Vec::new();
    let mut p: usize = i;
    loop
        invariant
            p <= s.len(),
            s == src@,
            names_until_close(s, i as nat) == prefixed(names_of(acc@), names_until_close(s, p as nat)),
        decreases s.len() - p,
    {
        proof {
            lemma_run_len(s, p as nat, CharClass::Space);
        }
        let j = scan(src, p, CharClass::Space);
        if j == src.len() {
            return Err(ParseError::UnexpectedEnd);
        }
        if src[j] == ')' {
            assert(names_of(acc@) + Seq::<Seq<char>>::empty() =~= names_of(acc@));
            return Ok((acc, j + 1));
        }
        let k = scan(src, j, CharClass::Word);
        if k == j {
            return Err(ParseError::ExpectedName(j));
        }
        let name = string_of(src, j, k);
        let ghost before = acc@;
        acc.push(name);
        proof {
            assert(names_of(acc@) =~= names_of(before).push(name@));
            assert forall|ns: Seq<Seq<char>>| #[trigger] (names_of(acc@) + ns) =~= names_of(before) + (seq![s.subrange(j as int, k as int)] + ns) by {}
        }
        p = k;
    }
}

/// Parses one node from `i`.
fn node_at(src: &[char], i: usize) -> (r: Result<Option<(Node, usize)>, ParseError>)
    ensures
        node_view(r) == parse_node(src@, i as nat),
        r matches Ok(Some((_, k))) ==> k <= src@.len(),
    decreases src@.len() - i, 0nat,
{
    if src.len() <= i {
        return Ok(None);
    }
    let j = scan(src, i, CharClass::Filler);
    if j == src.len() {
        return Ok(None);
    }
    let c = src[j];
    if '0' <= c && c <= '9' {
        let k = scan(src, j, CharClass::Digit);
        proof {
            lemma_run_len(src@, j as nat, CharClass::Digit);
        }
        match numeral_at(src, j, k) {
            None => Err(ParseError::NumberTooLarge(j)),
            Some(v) => Ok(Some((Node::Number(v), k))),
        }
    } else {
        let k = scan(src, j, CharClass::Word);
        if k == j {
            return Err(ParseError::UnexpectedChar(j));
        }
        match form_at(src, j, k) {
            None => Ok(Some((Node::Ident(string_of(src, j, k)), k))),
            Some(f) => form_rest(src, f, k),
        }
    }
}

/// A node that must be present at `i`.
fn required_at(src: &[char], i: usize) -> (r: Result<(Node, usize), ParseError>)
    ensures
        pair_view(r) == required(src@, i as nat),
        r matches Ok((_, k)) ==> k <= src@.len(),
    decreases src@.len() - i, 1nat,
{
    match node_at(src, i) {
        Err(e) => Err(e),
        Ok(None) => Err(ParseError::UnexpectedEnd),
        Ok(Some(r)) => Ok(r),
    }
}

/// Nodes up to and including a closing `)`, from `i`.
#[verifier::rlimit(60)]
fn body_at(src: &[char], i: usize) -> (r: Result<(Vec<Node>, usize), ParseError>)
    requires
        i <= src@.len(),
    ensures
        body_view(r) == parse_body(src@, i as nat),
        r matches Ok((_, z)) ==> z <= src@.len(),
    decreases src@.len() - i, 1nat,
{
    let ghost s = src@;
    let mut acc: Vec<Node> = Vec::new();
    let mut p: usize = i;
    loop
        invariant
            i <= p <= s.len(),
            s == src@,
            parse_body(s, i as nat) == prefixed(terms_of(acc@), parse_body(s, p as nat)),
        decreases s.len() - p,
    {
        let j = scan(src, p, CharClass::Space);
        if j == src.len() {
            return Err(ParseError::UnexpectedEnd);
        }
        if src[j] == ')' {
            assert(terms_of(acc@) + Seq::<Term>::empty() =~= terms_of(acc@));
            return Ok((acc, j + 1));
        }
        let (n, k) = match node_at(src, j) {
            Err(e) => {
                return Err(e);
            },
            Ok(None) => {
                return Err(ParseError::UnexpectedEnd);
            },
            Ok(Some(r)) => r,
        };
        proof {
            lemma_node_advances(src@, j as nat);
        }
        let ghost before = acc@;
        let ghost t = n@;
        acc.push(n);
        proof {
            assert(acc@.drop_last() =~= before);
            assert(terms_of(acc@) == terms_of(before).push(t));
            assert forall|ts: Seq<Term>| #[trigger] (terms_of(acc@) + ts) =~= terms_of(before) + (seq![t] + ts) by {}
        }
        p = k;
    }
}

/// The rest of a keyword form `f` whose keyword ends at `k`.
#[verifier::rlimit(60)]
fn form_rest(src: &[char], f: Form, k: usize) -> (r: Result<Option<(Node, usize)>, ParseError>)
    requires
        k <= src@.len(),
    ensures
        node_view(r) == parse_form(src@, f, k as nat),
        r matches Ok(Some((_, z))) ==> z <= src@.len(),
    decreases src@.len() - k, 0nat,
{
    let p = match open_at(src, k) {
        Err(e) => {
            return Err(e);
        },
        Ok(p) => p,
    };
    match f {
        Form::Define => {
            let (x, q) = match name_from(src, p) {
                Err(e) => {
                    return Err(e);
                },
                Ok(r) => r,
            };
            let (v, r) = match required_at(src, q) {
                Err(e) => {
                    return Err(e);
                },
                Ok(r) => r,
            };
            match close_at(src, r) {
                Err(e) => Err(e),
                Ok(z) => Ok(Some((Node::Define(x, Box::new(v)), z))),
            }
        },
        Form::Binary(op) => {
            let (a, q) = match required_at(src, p) {
                Err(e) => {
                    return Err(e);
                },
                Ok(r) => r,
            };
            proof {
                lemma_required_advances(src@, p as nat);
            }
            let (b, r) = match required_at(src, q) {
                Err(e) => {
                    return Err(e);
                },
                Ok(r) => r,
            };
            let z = match close_at(src, r) {
                Err(e) => {
                    return Err(e);
                },
                Ok(z) => z,
            };
            let a = Box::new(a);
            let b = Box::new(b);
            let node = match op {
                BinOp::Add => Node::Add(a, b),
                BinOp::Sub => Node::Sub(a, b),
                BinOp::Equal => Node::Equal(a, b),
                BinOp::NotEqual => Node::NotEqual(a, b),
                BinOp::Less => Node::Less(a, b),
                BinOp::More => Node::More(a, b),
            };
            Ok(Some((node, z)))
        },
        Form::Print => match body_at(src, p) {
            Err(e) => Err(e),
            Ok((args, z)) => Ok(Some((Node::Print(args), z))),
        },
        Form::If | Form::While => {
            let (c, q) = match required_at(src, p) {
                Err(e) => {
                    return Err(e);
                },
                Ok(r) => r,
            };
            proof {
                lemma_required_advances(src@, p as nat);
            }
            match body_at(src, q) {
                Err(e) => Err(e),
                Ok((body, z)) => if f == Form::If {
                    Ok(Some((Node::If(Box::new(c), body), z)))
                } else {
                    Ok(Some((Node::While(Box::new(c), body), z)))
                },
            }
        },
        Form::For => {
            let (a, q1) = match required_at(src, p) {
                Err(e) => {
                    return Err(e);
                },
                Ok(r) => r,
            };
            proof {
                lemma_required_advances(src@, p as nat);
            }
            let (b, q2) = match required_at(src, q1) {
                Err(e) => {
                    return Err(e);
                },
                Ok(r) => r,
            };
            proof {
                lemma_required_advances(src@, q1 as nat);
            }
            let (d, q3) = match required_at(src, q2) {
                Err(e) => {
                    return Err(e);
                },
                Ok(r) => r,
            };
            proof {
                lemma_required_advances(src@, q2 as nat);
            }
            match body_at(src, q3) {
                Err(e) => Err(e),
                Ok((body, z)) => Ok(Some((Node::For(Box::new(a), Box::new(b), Box::new(d), body), z))),
            }
        },
        Form::DefineFn => {
            let (name, q) = match name_from(src, p) {
                Err(e) => {
                    return Err(e);
                },
                Ok(r) => r,
            };
            let q2 = match open_at(src, q) {
                Err(e) => {
                    return Err(e);
                },
                Ok(q2) => q2,
            };
            let (params, q3) = match names_from(src, q2) {
                Err(e) => {
                    return Err(e);
                },
                Ok(r) => r,
            };
            proof {
                lemma_names_advance(src@, q2 as nat);
            }
            match body_at(src, q3) {
                Err(e) => Err(e),
                Ok((body, z)) => Ok(Some((Node::DefineFn(name, params, body), z))),
            }
        },
    }
}

/// Parses one node of `src` from character position `*i`, skipping
/// whitespace and stray `)` before it. On success `*i` moves past the node;
/// when only such filler is left the result is `None` and `*i` moves to the
/// end of the text (a cursor already past the end stays); on an error `*i`
/// stays.
pub fn parse_func(src: &str, i: &mut usize) -> (r: Result<Option<Node>, ParseError>)
    ensures
        match parse_node(src@, *old(i) as nat) {
            Ok(Some((t, k))) => r matches Ok(Some(n)) && n@ == t && *final(i) == k,
            Ok(None) => r matches Ok(None) && *final(i) == if *old(i) <= src@.len() {
                src@.len() as usize
            } else {
                *old(i)
            },
            Err(e) => r == Err::<Option<Node>, ParseError>(e) && *final(i) == *old(i),
        },
{
    let chars = chars_of(src);
    match node_at(chars.as_slice(), *i) {
        Err(e) => Err(e),
        Ok(None) => {
            if *i < chars.len() {
                *i = chars.len();
            }
            Ok(None)
        },
        Ok(Some((n, k))) => {
            *i = k;
            Ok(Some(n))
        },
    }
}

/// Parses a whole text into the nodes of a module, in order.
pub fn parse(src: String) -> (r: Result<Vec<Node>, ParseError>)
    ensures
        module_view(r) == parse_module(src@),
{
    let chars = chars_of(src.as_str());
    let ghost s = chars@;
    let mut module: Vec<Node> = Vec::new();
    let mut i: usize = 0;
    loop
        invariant
            s == chars@,
            s == src@,
            i <= s.len(),
            parse_module(s) == match parse_nodes(s, i as nat) {
                Ok(ts) => Ok(terms_of(module@) + ts),
                Err(e) => Err(e),
            },
        decreases s.len() - i,
    {
        match node_at(chars.as_slice(), i) {
            Err(e) => {
                return Err(e);
            },
            Ok(None) => {
                assert(terms_of(module@) + Seq::<Term>::empty() =~= terms_of(module@));
                return Ok(module);
            },
            Ok(Some((n, k))) => {
                proof {
                    lemma_node_advances(chars@, i as nat);
                }
                let ghost before = module@;
                let ghost t = n@;
                module.push(n);
                proof {
                    assert(module@.drop_last() =~= before);
                    assert(terms_of(module@) == terms_of(before).push(t));
                    assert forall|ts: Seq<Term>| #[trigger] (terms_of(module@) + ts) =~= terms_of(before) + (seq![t] + ts) by {}
                }
                i = k;
            },
        }
    }
}

} // verus!
