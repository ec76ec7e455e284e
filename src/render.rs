//! The canonical text of a program, and the law that parsing it gives the
//! program back.

use vstd::prelude::*;
use crate::ast::{BinOp, Term};
use crate::eval::run_module;
use crate::parser::{
    CharClass, Form, ParseError, advanced, close_paren, form_of, in_class, is_digit, is_word_char,
    lemma_run_len, lemma_unclosed_form_fails, name_at, names_until_close, numeral_value, open_paren,
    parse_body, parse_form, parse_module, parse_node, parse_nodes, required, run_len,
};
use crate::text::{decimal, decimal_nat, digit_char};

verus! {

/// The keyword that introduces a form.
pub open spec fn form_word(f: Form) -> Seq<char> {
    match f {
        Form::Define => "define"@,
        Form::Binary(BinOp::Add) => "add"@,
        Form::Binary(BinOp::Sub) => "sub"@,
        Form::Binary(BinOp::Equal) => "equal"@,
        Form::Binary(BinOp::NotEqual) => "notequal"@,
        Form::Binary(BinOp::Less) => "less"@,
        Form::Binary(BinOp::More) => "more"@,
        Form::Print => "print"@,
        Form::If => "if"@,
        Form::While => "while"@,
        Form::For => "for"@,
        Form::DefineFn => "fn"@,
    }
}

/// A name that can be written: letters and `_`, at least one, and no keyword.
pub open spec fn is_name(x: Seq<char>) -> bool {
    &&& x.len() > 0
    &&& forall|p: int| 0 <= p < x.len() ==> is_word_char(#[trigger] x[p])
    &&& form_of(x) is None
}

/// A term that the surface syntax can express: numbers are not negative and
/// every name is a name.
pub open spec fn writable(t: Term) -> bool
    decreases t,
{
    match t {
        Term::Number(n) => n >= 0,
        Term::Ident(x) => is_name(x),
        Term::Define(x, v) => is_name(x) && writable(*v),
        Term::Binary(_, a, b) => writable(*a) && writable(*b),
        Term::Print(args) => forall|k: int| 0 <= k < args.len() ==> writable(#[trigger] args[k]),
        Term::If(c, body) => writable(*c) && forall|k: int| 0 <= k < body.len() ==> writable(#[trigger] body[k]),
        Term::While(c, body) => writable(*c) && forall|k: int|
            0 <= k < body.len() ==> writable(#[trigger] body[k]),
        Term::For(a, b, d, body) => writable(*a) && writable(*b) && writable(*d) && forall|k: int|
            0 <= k < body.len() ==> writable(#[trigger] body[k]),
        Term::DefineFn(f, ps, body) => is_name(f) && (forall|k: int| 0 <= k < ps.len() ==> is_name(#[trigger] ps[k]))
            && forall|k: int| 0 <= k < body.len() ==> writable(#[trigger] body[k]),
    }
}

/// Every term of a list can be written.
pub open spec fn all_writable(ts: Seq<Term>) -> bool {
    forall|k: int| 0 <= k < ts.len() ==> writable(#[trigger] ts[k])
}

/// The canonical text of a term.
pub open spec fn render(t: Term) -> Seq<char>
    decreases t, 1nat,
{
    match t {
        Term::Number(n) => decimal(n as int),
        Term::Ident(x) => x,
        Term::Define(x, v) => form_word(Form::Define) + seq!['('] + x + seq![' '] + render(*v) + seq![')'],
        Term::Binary(op, a, b) => form_word(Form::Binary(op)) + seq!['('] + render(*a) + seq![' '] + render(*b)
            + seq![')'],
        Term::Print(args) => form_word(Form::Print) + seq!['('] + render_list(args) + seq![')'],
        Term::If(c, body) => form_word(Form::If) + seq!['('] + render(*c) + render_list(body) + seq![')'],
        Term::While(c, body) => form_word(Form::While) + seq!['('] + render(*c) + render_list(body) + seq![')'],
        Term::For(a, b, d, body) => form_word(Form::For) + seq!['('] + render(*a) + seq![' '] + render(*b)
            + seq![' '] + render(*d) + render_list(body) + seq![')'],
        Term::DefineFn(f, ps, body) => form_word(Form::DefineFn) + seq!['('] + f + seq![' ', '('] + render_names(ps)
            + seq![')'] + render_list(body) + seq![')'],
    }
}

/// The text of a list of terms: each after one space.
pub open spec fn render_list(ts: Seq<Term>) -> Seq<char>
    decreases ts, 0nat,
{
    if ts.len() == 0 {
        Seq::empty()
    } else {
        seq![' '] + render(ts[0]) + render_list(ts.drop_first())
    }
}

/// The text of a list of names: each after one space.
pub open spec fn render_names(ns: Seq<Seq<char>>) -> Seq<char>
    decreases ns.len(),
{
    if ns.len() == 0 {
        Seq::empty()
    } else {
        seq![' '] + ns[0] + render_names(ns.drop_first())
    }
}

/// `w` stands in `s` from position `i`.
pub open spec fn at(s: Seq<char>, i: nat, w: Seq<char>) -> bool {
    &&& i + w.len() <= s.len()
    &&& forall|p: int| 0 <= p < w.len() ==> s[i + p] == #[trigger] w[p]
}

/// What may follow a node in canonical text: the end, a space or `)`.
pub open spec fn ends_node(s: Seq<char>, k: nat) -> bool {
    k == s.len() || (k < s.len() && (s[k as int] == ' ' || s[k as int] == ')'))
}

/// Text standing at `i` stands there piece by piece.
proof fn lemma_at_split(s: Seq<char>, i: nat, a: Seq<char>, b: Seq<char>)
    requires
        at(s, i, a + b),
    ensures
        at(s, i, a),
        at(s, i + a.len(), b),
{
    assert forall|p: int| 0 <= p < a.len() implies s[i + p] == #[trigger] a[p] by {
        assert((a + b)[p] == a[p]);
    }
    assert forall|p: int| 0 <= p < b.len() implies s[i + a.len() + p] == #[trigger] b[p] by {
        assert((a + b)[a.len() + p] == b[p]);
    }
}

/// A run of `n` characters of a class, not followed by one, is scanned
/// whole.
proof fn lemma_run_exact(s: Seq<char>, i: nat, n: nat, k: CharClass)
    requires
        i + n <= s.len(),
        forall|p: int| i <= p < i + n ==> in_class(k, #[trigger] s[p]),
        i + n == s.len() || !in_class(k, s[(i + n) as int]),
    ensures
        run_len(s, i, k) == n,
    decreases n,
{
    if n > 0 {
        lemma_run_exact(s, i + 1, (n - 1) as nat, k);
    }
}

/// The numeral of `n` is a non-empty string of digits that denotes `n`.
proof fn lemma_decimal(n: nat)
    ensures
        decimal_nat(n).len() > 0,
        forall|p: int| 0 <= p < decimal_nat(n).len() ==> is_digit(#[trigger] decimal_nat(n)[p]),
        numeral_value(decimal_nat(n)) == n,
    decreases n,
{
    let d = decimal_nat(n);
    if n < 10 {
        assert(d.drop_last() =~= Seq::<char>::empty());
        assert(numeral_value(Seq::<char>::empty()) == 0);
    } else {
        lemma_decimal(n / 10);
        assert(d.drop_last() =~= decimal_nat(n / 10));
        assert(d.last() == digit_char(n % 10));
        assert forall|p: int| 0 <= p < d.len() implies is_digit(#[trigger] d[p]) by {
            if p < d.len() - 1 {
                assert(d[p] == decimal_nat(n / 10)[p]);
            }
        }
    }
}

/// Each keyword is a non-empty word that introduces its own form.
proof fn lemma_keywords(f: Form)
    ensures
        form_of(form_word(f)) == Some(f),
        form_word(f).len() > 0,
        forall|p: int| 0 <= p < form_word(f).len() ==> is_word_char(#[trigger] form_word(f)[p]),
{
    reveal_strlit("define");
    reveal_strlit("add");
    reveal_strlit("sub");
    reveal_strlit("equal");
    reveal_strlit("notequal");
    reveal_strlit("less");
    reveal_strlit("more");
    reveal_strlit("print");
    reveal_strlit("if");
    reveal_strlit("while");
    reveal_strlit("for");
    reveal_strlit("fn");
    let w = form_word(f);
    assert(w.len() != "define"@.len() || w[0] != "define"@[0] || f == Form::Define);
    assert(w.len() != "add"@.len() || w[0] != "add"@[0] || f == Form::Binary(BinOp::Add));
    assert(w.len() != "sub"@.len() || w[0] != "sub"@[0] || f == Form::Binary(BinOp::Sub));
    assert(w.len() != "equal"@.len() || w[0] != "equal"@[0] || f == Form::Binary(BinOp::Equal));
    assert(w.len() != "notequal"@.len() || w[0] != "notequal"@[0] || f == Form::Binary(BinOp::NotEqual));
    assert(w.len() != "less"@.len() || w[0] != "less"@[0] || f == Form::Binary(BinOp::Less));
    assert(w.len() != "more"@.len() || w[0] != "more"@[0] || f == Form::Binary(BinOp::More));
    assert(w.len() != "print"@.len() || w[0] != "print"@[0] || f == Form::Print);
    assert(w.len() != "if"@.len() || w[0] != "if"@[0] || f == Form::If);
    assert(w.len() != "while"@.len() || w[0] != "while"@[0] || f == Form::While);
    assert(w.len() != "for"@.len() || w[0] != "for"@[0] || f == Form::For);
    assert(w.len() != "fn"@.len() || w[1] != "fn"@[1] || f == Form::DefineFn);
}

/// `w`, a run of word characters standing at `i` and not followed by one,
/// is scanned as one word.
proof fn lemma_word_at(s: Seq<char>, i: nat, w: Seq<char>)
    requires
        at(s, i, w),
        w.len() > 0,
        forall|p: int| 0 <= p < w.len() ==> is_word_char(#[trigger] w[p]),
        i + w.len() == s.len() || !is_word_char(s[(i + w.len()) as int]),
    ensures
        run_len(s, i, CharClass::Word) == w.len(),
        run_len(s, i, CharClass::Filler) == 0,
        run_len(s, i, CharClass::Space) == 0,
        s.subrange(i as int, (i + w.len()) as int) == w,
        !is_digit(s[i as int]),
{
    assert(s[(i + 0) as int] == w[0]);
    assert forall|p: int| i <= p < i + w.len() implies in_class(CharClass::Word, #[trigger] s[p]) by {
        assert(s[i + (p - i)] == w[p - i]);
    }
    lemma_run_exact(s, i, w.len(), CharClass::Word);
    lemma_run_exact(s, i, 0, CharClass::Filler);
    lemma_run_exact(s, i, 0, CharClass::Space);
    assert(s.subrange(i as int, (i + w.len()) as int) =~= w);
}

/// One character of filler before a node changes nothing.
proof fn lemma_skip_filler(s: Seq<char>, i: nat)
    requires
        i < s.len(),
        s[i as int] == ' ' || s[i as int] == ')',
    ensures
        parse_node(s, i) == parse_node(s, i + 1),
        run_len(s, i, CharClass::Filler) == 1 + run_len(s, i + 1, CharClass::Filler),
{
}

/// The text of a writable term is not empty and begins with a digit or a
/// word character.
proof fn lemma_render_start(t: Term)
    requires
        writable(t),
    ensures
        render(t).len() > 0,
        is_digit(render(t)[0]) || is_word_char(render(t)[0]),
{
    match t {
        Term::Number(n) => {
            lemma_decimal(n as nat);
        },
        Term::Ident(x) => {},
        Term::Define(..) => {
            lemma_keywords(Form::Define);
        },
        Term::Binary(op, ..) => {
            lemma_keywords(Form::Binary(op));
        },
        Term::Print(..) => {
            lemma_keywords(Form::Print);
        },
        Term::If(..) => {
            lemma_keywords(Form::If);
        },
        Term::While(..) => {
            lemma_keywords(Form::While);
        },
        Term::For(..) => {
            lemma_keywords(Form::For);
        },
        Term::DefineFn(..) => {
            lemma_keywords(Form::DefineFn);
        },
    }
}

/// The canonical text of a writable term parses back to the term.
#[verifier::rlimit(60)]
proof fn lemma_parse_rendered(s: Seq<char>, i: nat, t: Term)
    requires
        writable(t),
        at(s, i, render(t)),
        ends_node(s, i + render(t).len()),
    ensures
        parse_node(s, i) == Ok::<Option<(Term, nat)>, ParseError>(Some((t, i + render(t).len()))),
    decreases t, 2nat,
{
    lemma_render_start(t);
    let r = render(t);
    let e = i + r.len();
    assert(s[(i + 0) as int] == r[0]);
    lemma_run_exact(s, i, 0, CharClass::Filler);
    match t {
        Term::Number(n) => {
            lemma_decimal(n as nat);
            assert forall|p: int| i <= p < e implies in_class(CharClass::Digit, #[trigger] s[p]) by {
                assert(s[i + (p - i)] == r[p - i]);
            }
            lemma_run_exact(s, i, r.len(), CharClass::Digit);
            assert(s.subrange(i as int, e as int) =~= r);
        },
        Term::Ident(x) => {
            lemma_word_at(s, i, x);
        },
        _ => {
            lemma_parse_rendered_form(s, i, t);
        },
    }
}

/// The keyword form of a writable term parses back from its canonical text.
#[verifier::rlimit(60)]
proof fn lemma_parse_rendered_form(s: Seq<char>, i: nat, t: Term)
    requires
        writable(t),
        at(s, i, render(t)),
        ends_node(s, i + render(t).len()),
        !(t is Number),
        !(t is Ident),
    ensures
        parse_node(s, i) == Ok::<Option<(Term, nat)>, ParseError>(Some((t, i + render(t).len()))),
    decreases t, 1nat,
{
    let f = match t {
        Term::Define(..) => Form::Define,
        Term::Binary(op, ..) => Form::Binary(op),
        Term::Print(..) => Form::Print,
        Term::If(..) => Form::If,
        Term::While(..) => Form::While,
        Term::For(..) => Form::For,
        _ => Form::DefineFn,
    };
    let w = form_word(f);
    lemma_keywords(f);
    let r = render(t);
    let rest = r.subrange(w.len() as int, r.len() as int);
    assert(r =~= w + rest);
    lemma_at_split(s, i, w, rest);
    let k = i + w.len();
    assert(rest[0] == '(');
    assert(s[(k + 0) as int] == rest[0]);
    lemma_word_at(s, i, w);
    lemma_run_exact(s, k, 0, CharClass::Space);
    assert(open_paren(s, k) == Ok::<nat, ParseError>(k + 1));
    let p = k + 1;
    match t {
        Term::Define(x, v) => {
            lemma_define_form(s, i, t, f, x, *v);
        },
        Term::Binary(op, a, b) => {
            lemma_binary_form(s, i, t, f, op, *a, *b);
        },
        Term::Print(args) => {
            lemma_print_form(s, i, t, f, args);
        },
        Term::If(c, body) => {
            lemma_form_with_body(s, i, t, f, *c, body);
        },
        Term::While(c, body) => {
            lemma_form_with_body(s, i, t, f, *c, body);
        },
        Term::For(a, b, d, body) => {
            lemma_for_form(s, i, t, f, *a, *b, *d, body);
        },
        Term::DefineFn(name, ps, body) => {
            lemma_fn_form(s, i, t, f, name, ps, body);
        },
        _ => {},
    }
}

/// A `define` form parses back from its canonical text.
#[verifier::rlimit(60)]
proof fn lemma_define_form(s: Seq<char>, i: nat, t: Term, f: Form, x: Seq<char>, v: Term)
    requires
        writable(t),
        at(s, i, render(t)),
        t == Term::Define(x, Box::new(v)),
        f == Form::Define,
        open_paren(s, i + form_word(f).len()) == Ok::<nat, ParseError>(i + form_word(f).len() + 1),
    ensures
        parse_form(s, f, i + form_word(f).len()) == Ok::<Option<(Term, nat)>, ParseError>(
            Some((t, i + render(t).len())),
        ),
    decreases t, 0nat,
{
    let w = form_word(f);
    lemma_keywords(f);
    let r = render(t);
    let p = i + w.len() + 1;
    let a1 = w + seq!['('];
    let a2 = a1 + x;
    let a3 = a2 + seq![' '];
    let a4 = a3 + render(v);
    lemma_at_split(s, i, a4, seq![')']);
    lemma_at_split(s, i, a3, render(v));
    lemma_at_split(s, i, a2, seq![' ']);
    lemma_at_split(s, i, a1, x);
    let q = p + x.len();
    assert(s[(q + 0) as int] == seq![' '][0]);
    lemma_word_at(s, p, x);
    assert(name_at(s, p) == Ok::<(Seq<char>, nat), ParseError>((x, q)));
    let z = q + 1 + render(v).len();
    assert(s[(z + 0) as int] == seq![')'][0]);
    lemma_skip_filler(s, q);
    lemma_parse_rendered(s, q + 1, v);
    lemma_run_exact(s, z, 0, CharClass::Space);
    assert(close_paren(s, z) == Ok::<nat, ParseError>(z + 1));
}

/// A binary form parses back from its canonical text.
#[verifier::rlimit(60)]
proof fn lemma_binary_form(s: Seq<char>, i: nat, t: Term, f: Form, op: BinOp, a: Term, b: Term)
    requires
        writable(t),
        at(s, i, render(t)),
        t == Term::Binary(op, Box::new(a), Box::new(b)),
        f == Form::Binary(op),
        open_paren(s, i + form_word(f).len()) == Ok::<nat, ParseError>(i + form_word(f).len() + 1),
    ensures
        parse_form(s, f, i + form_word(f).len()) == Ok::<Option<(Term, nat)>, ParseError>(
            Some((t, i + render(t).len())),
        ),
    decreases t, 0nat,
{
    let w = form_word(f);
    lemma_keywords(f);
    let r = render(t);
    let p = i + w.len() + 1;
    let a1 = w + seq!['('];
    let a2 = a1 + render(a);
    let a3 = a2 + seq![' '];
    let a4 = a3 + render(b);
    lemma_at_split(s, i, a4, seq![')']);
    lemma_at_split(s, i, a3, render(b));
    lemma_at_split(s, i, a2, seq![' ']);
    lemma_at_split(s, i, a1, render(a));
    let q = p + render(a).len();
    assert(s[(q + 0) as int] == seq![' '][0]);
    lemma_render_start(a);
    lemma_parse_rendered(s, p, a);
    let z = q + 1 + render(b).len();
    assert(s[(z + 0) as int] == seq![')'][0]);
    lemma_skip_filler(s, q);
    lemma_parse_rendered(s, q + 1, b);
    lemma_run_exact(s, z, 0, CharClass::Space);
    assert(close_paren(s, z) == Ok::<nat, ParseError>(z + 1));
}

/// A `print` form parses back from its canonical text.
#[verifier::rlimit(60)]
proof fn lemma_print_form(s: Seq<char>, i: nat, t: Term, f: Form, args: Seq<Term>)
    requires
        writable(t),
        at(s, i, render(t)),
        t == Term::Print(args),
        f == Form::Print,
        open_paren(s, i + form_word(f).len()) == Ok::<nat, ParseError>(i + form_word(f).len() + 1),
    ensures
        parse_form(s, f, i + form_word(f).len()) == Ok::<Option<(Term, nat)>, ParseError>(
            Some((t, i + render(t).len())),
        ),
    decreases t, 0nat,
{
    let w = form_word(f);
    lemma_keywords(f);
    let r = render(t);
    let p = i + w.len() + 1;
    let a1 = w + seq!['('];
    assert(r =~= a1 + (render_list(args) + seq![')']));
    lemma_at_split(s, i, a1, render_list(args) + seq![')']);
    lemma_parse_rendered_list(s, p, args);
}

/// A `for` form parses back from its canonical text.
#[verifier::rlimit(60)]
proof fn lemma_for_form(s: Seq<char>, i: nat, t: Term, f: Form, a: Term, b: Term, d: Term, body: Seq<Term>)
    requires
        writable(t),
        at(s, i, render(t)),
        t == Term::For(Box::new(a), Box::new(b), Box::new(d), body),
        f == Form::For,
        open_paren(s, i + form_word(f).len()) == Ok::<nat, ParseError>(i + form_word(f).len() + 1),
    ensures
        parse_form(s, f, i + form_word(f).len()) == Ok::<Option<(Term, nat)>, ParseError>(
            Some((t, i + render(t).len())),
        ),
    decreases t, 0nat,
{
    let w = form_word(f);
    lemma_keywords(f);
    let r = render(t);
    let p = i + w.len() + 1;
    let a1 = w + seq!['('];
    let a2 = a1 + render(a);
    let a3 = a2 + seq![' '];
    let a4 = a3 + render(b);
    let a5 = a4 + seq![' '];
    let a6 = a5 + render(d);
    assert(r =~= a6 + (render_list(body) + seq![')']));
    lemma_at_split(s, i, a6, render_list(body) + seq![')']);
    lemma_at_split(s, i, a5, render(d));
    lemma_at_split(s, i, a4, seq![' ']);
    lemma_at_split(s, i, a3, render(b));
    lemma_at_split(s, i, a2, seq![' ']);
    lemma_at_split(s, i, a1, render(a));
    let q1 = p + render(a).len();
    let q2 = q1 + 1 + render(b).len();
    let q3 = q2 + 1 + render(d).len();
    assert(s[(q1 + 0) as int] == seq![' '][0]);
    assert(s[(q2 + 0) as int] == seq![' '][0]);
    lemma_render_start(a);
    lemma_render_start(b);
    lemma_render_start(d);
    lemma_list_start(body);
    assert(s[(q3 + 0) as int] == (render_list(body) + seq![')'])[0]);
    lemma_parse_rendered(s, p, a);
    lemma_skip_filler(s, q1);
    lemma_parse_rendered(s, q1 + 1, b);
    lemma_skip_filler(s, q2);
    lemma_parse_rendered(s, q2 + 1, d);
    lemma_parse_rendered_list(s, q3, body);
}

/// A `fn` form parses back from its canonical text.
#[verifier::rlimit(60)]
proof fn lemma_fn_form(s: Seq<char>, i: nat, t: Term, f: Form, name: Seq<char>, ps: Seq<Seq<char>>, body: Seq<Term>)
    requires
        writable(t),
        at(s, i, render(t)),
        t == Term::DefineFn(name, ps, body),
        f == Form::DefineFn,
        open_paren(s, i + form_word(f).len()) == Ok::<nat, ParseError>(i + form_word(f).len() + 1),
    ensures
        parse_form(s, f, i + form_word(f).len()) == Ok::<Option<(Term, nat)>, ParseError>(
            Some((t, i + render(t).len())),
        ),
    decreases t, 0nat,
{
    let w = form_word(f);
    lemma_keywords(f);
    let r = render(t);
    let p = i + w.len() + 1;
    let a1 = w + seq!['('];
    let a2 = a1 + name;
    let a3 = a2 + seq![' ', '('];
    let a4 = a3 + render_names(ps);
    let a5 = a4 + seq![')'];
    assert(r =~= a5 + (render_list(body) + seq![')']));
    lemma_at_split(s, i, a5, render_list(body) + seq![')']);
    assert(a5 =~= a3 + (render_names(ps) + seq![')']));
    lemma_at_split(s, i, a3, render_names(ps) + seq![')']);
    lemma_at_split(s, i, a2, seq![' ', '(']);
    lemma_at_split(s, i, a1, name);
    let q = p + name.len();
    assert(s[(q + 0) as int] == seq![' ', '('][0]);
    assert(s[(q + 1) as int] == seq![' ', '('][1]);
    lemma_word_at(s, p, name);
    assert(name_at(s, p) == Ok::<(Seq<char>, nat), ParseError>((name, q)));
    lemma_run_exact(s, q, 1, CharClass::Space);
    assert(open_paren(s, q) == Ok::<nat, ParseError>(q + 2));
    lemma_parse_rendered_names(s, q + 2, ps);
    let q3 = q + 2 + render_names(ps).len() + 1;
    lemma_parse_rendered_list(s, q3, body);
}

/// An `If` or `While` parses back from its canonical text.
#[verifier::rlimit(60)]
proof fn lemma_form_with_body(s: Seq<char>, i: nat, t: Term, f: Form, c: Term, body: Seq<Term>)
    requires
        writable(t),
        at(s, i, render(t)),
        (f == Form::If && t == Term::If(Box::new(c), body)) || (f == Form::While && t == Term::While(Box::new(c), body)),
        open_paren(s, i + form_word(f).len()) == Ok::<nat, ParseError>(i + form_word(f).len() + 1),
    ensures
        parse_form(s, f, i + form_word(f).len()) == Ok::<Option<(Term, nat)>, ParseError>(
            Some((t, i + render(t).len())),
        ),
    decreases t, 0nat,
{
    let w = form_word(f);
    let p = i + w.len() + 1;
    let a1 = w + seq!['('];
    let a2 = a1 + render(c);
    assert(render(t) =~= a2 + (render_list(body) + seq![')']));
    lemma_at_split(s, i, a2, render_list(body) + seq![')']);
    lemma_at_split(s, i, a1, render(c));
    let q = p + render(c).len();
    lemma_render_start(c);
    lemma_list_start(body);
    assert(s[(q + 0) as int] == (render_list(body) + seq![')'])[0]);
    lemma_parse_rendered(s, p, c);
    lemma_parse_rendered_list(s, q, body);
}

/// A rendered list begins with a space, or is empty.
proof fn lemma_list_start(ts: Seq<Term>)
    ensures
        ts.len() == 0 ==> render_list(ts) == Seq::<char>::empty(),
        ts.len() > 0 ==> render_list(ts).len() > 0 && render_list(ts)[0] == ' ',
{
}

/// A canonical list of terms, closed by `)`, parses back to the list.
#[verifier::rlimit(60)]
proof fn lemma_parse_rendered_list(s: Seq<char>, i: nat, ts: Seq<Term>)
    requires
        all_writable(ts),
        at(s, i, render_list(ts) + seq![')']),
    ensures
        parse_body(s, i) == Ok::<(Seq<Term>, nat), ParseError>((ts, i + render_list(ts).len() + 1)),
    decreases ts, 2nat,
{
    let rl = render_list(ts);
    if ts.len() == 0 {
        assert(s[(i + 0) as int] == (rl + seq![')'])[0]);
        lemma_run_exact(s, i, 0, CharClass::Space);
        assert(ts =~= Seq::<Term>::empty());
    } else {
        let t = ts[0];
        let rest = ts.drop_first();
        let a1 = seq![' '] + render(t);
        assert(rl + seq![')'] =~= a1 + (render_list(rest) + seq![')']));
        lemma_at_split(s, i, a1, render_list(rest) + seq![')']);
        lemma_at_split(s, i, seq![' '], render(t));
        lemma_render_start(t);
        assert(s[(i + 0) as int] == seq![' '][0]);
        assert(s[(i + 1 + 0) as int] == render(t)[0]);
        lemma_run_exact(s, i, 1, CharClass::Space);
        let k = i + 1 + render(t).len();
        lemma_list_start(rest);
        assert(s[(k + 0) as int] == (render_list(rest) + seq![')'])[0]);
        lemma_parse_rendered(s, i + 1, t);
        assert forall|m: int| 0 <= m < rest.len() implies writable(#[trigger] rest[m]) by {
            assert(rest[m] == ts[m + 1]);
        }
        lemma_parse_rendered_list(s, k, rest);
        assert(seq![t] + rest =~= ts);
    }
}

/// A canonical list of names, closed by `)`, parses back to the list.
#[verifier::rlimit(60)]
proof fn lemma_parse_rendered_names(s: Seq<char>, i: nat, ns: Seq<Seq<char>>)
    requires
        forall|m: int| 0 <= m < ns.len() ==> is_name(#[trigger] ns[m]),
        at(s, i, render_names(ns) + seq![')']),
    ensures
        names_until_close(s, i) == Ok::<(Seq<Seq<char>>, nat), ParseError>((ns, i + render_names(ns).len() + 1)),
    decreases ns.len(),
{
    let rn = render_names(ns);
    if ns.len() == 0 {
        assert(s[(i + 0) as int] == (rn + seq![')'])[0]);
        lemma_run_exact(s, i, 0, CharClass::Space);
        assert(ns =~= Seq::<Seq<char>>::empty());
    } else {
        let x = ns[0];
        let rest = ns.drop_first();
        let a1 = seq![' '] + x;
        assert(rn + seq![')'] =~= a1 + (render_names(rest) + seq![')']));
        lemma_at_split(s, i, a1, render_names(rest) + seq![')']);
        lemma_at_split(s, i, seq![' '], x);
        assert(s[(i + 0) as int] == seq![' '][0]);
        assert(s[(i + 1 + 0) as int] == x[0]);
        lemma_run_exact(s, i, 1, CharClass::Space);
        let k = i + 1 + x.len();
        assert(rest.len() > 0 ==> render_names(rest)[0] == ' ');
        assert(s[(k + 0) as int] == (render_names(rest) + seq![')'])[0]);
        lemma_word_at(s, i + 1, x);
        assert forall|m: int| 0 <= m < rest.len() implies is_name(#[trigger] rest[m]) by {
            assert(rest[m] == ns[m + 1]);
        }
        lemma_parse_rendered_names(s, k, rest);
        assert(seq![x] + rest =~= ns);
    }
}

/// The canonical text of a module: each node after one space.
pub open spec fn render_module(ts: Seq<Term>) -> Seq<char> {
    render_list(ts)
}

/// The canonical text of a list of nodes, running to the end of the text,
/// parses back to the list.
#[verifier::rlimit(60)]
proof fn lemma_parse_rendered_nodes(s: Seq<char>, i: nat, ts: Seq<Term>)
    requires
        all_writable(ts),
        at(s, i, render_list(ts)),
        i + render_list(ts).len() == s.len(),
    ensures
        parse_nodes(s, i) == Ok::<Seq<Term>, ParseError>(ts),
    decreases ts.len(),
{
    if ts.len() == 0 {
        assert(ts =~= Seq::<Term>::empty());
    } else {
        let t = ts[0];
        let rest = ts.drop_first();
        let a1 = seq![' '] + render(t);
        assert(render_list(ts) =~= a1 + render_list(rest));
        lemma_at_split(s, i, a1, render_list(rest));
        lemma_at_split(s, i, seq![' '], render(t));
        assert(s[(i + 0) as int] == seq![' '][0]);
        lemma_render_start(t);
        let k = i + 1 + render(t).len();
        lemma_list_start(rest);
        if rest.len() > 0 {
            assert(s[(k + 0) as int] == render_list(rest)[0]);
        }
        lemma_skip_filler(s, i);
        lemma_parse_rendered(s, i + 1, t);
        assert forall|m: int| 0 <= m < rest.len() implies writable(#[trigger] rest[m]) by {
            assert(rest[m] == ts[m + 1]);
        }
        lemma_parse_rendered_nodes(s, k, rest);
        assert(seq![t] + rest =~= ts);
    }
}

/// Parsing the canonical text of a module that the syntax can express gives
/// the module back.
pub proof fn lemma_parse_render(ts: Seq<Term>)
    requires
        all_writable(ts),
    ensures
        parse_module(render_module(ts)) == Ok::<Seq<Term>, ParseError>(ts),
{
    let s = render_module(ts);
    assert forall|p: int| 0 <= p < s.len() implies s[0 + p] == #[trigger] s[p] by {}
    lemma_parse_rendered_nodes(s, 0, ts);
}

/// A module built directly and the same module parsed from its text run
/// alike: the same final variables, functions and printed output, and the
/// same outcome.
pub proof fn lemma_parsed_module_runs_alike(lim: nat, ts: Seq<Term>)
    requires
        all_writable(ts),
    ensures
        parse_module(render_module(ts)) matches Ok(parsed) && run_module(lim, parsed) == run_module(lim, ts),
{
    lemma_parse_render(ts);
}

/// A run that ends inside `s1`, or of a class without the space, is the same
/// in `s1` followed by a space.
proof fn lemma_run_local(s1: Seq<char>, w: Seq<char>, i: nat, c: CharClass)
    requires
        i <= s1.len(),
        w.len() > 0,
        w[0] == ' ',
        i + run_len(s1, i, c) < s1.len() || !in_class(c, ' '),
    ensures
        run_len(s1 + w, i, c) == run_len(s1, i, c),
    decreases s1.len() - i,
{
    if i < s1.len() {
        assert((s1 + w)[i as int] == s1[i as int]);
        if in_class(c, s1[i as int]) {
            lemma_run_local(s1, w, i + 1, c);
        }
    } else {
        assert((s1 + w)[i as int] == w[0]);
    }
}

/// What lies inside `s1` reads the same in `s1` followed by more text.
proof fn lemma_subrange_local(s1: Seq<char>, w: Seq<char>, j: nat, k: nat)
    requires
        j <= k <= s1.len(),
    ensures
        (s1 + w).subrange(j as int, k as int) == s1.subrange(j as int, k as int),
{
    assert((s1 + w).subrange(j as int, k as int) =~= s1.subrange(j as int, k as int));
}

/// A list of names closed inside `s1` parses the same when a space and more
/// text follow.
#[verifier::rlimit(60)]
proof fn lemma_names_local(s1: Seq<char>, w: Seq<char>, i: nat)
    requires
        w.len() > 0,
        w[0] == ' ',
        names_until_close(s1, i) is Ok,
    ensures
        names_until_close(s1 + w, i) == names_until_close(s1, i),
    decreases s1.len() - i,
{
    let s = s1 + w;
    lemma_run_len(s1, i, CharClass::Space);
    lemma_run_local(s1, w, i, CharClass::Space);
    let j = i + run_len(s1, i, CharClass::Space);
    assert(s[j as int] == s1[j as int]);
    if s1[j as int] != ')' {
        lemma_run_len(s1, j, CharClass::Word);
        lemma_run_local(s1, w, j, CharClass::Word);
        let k = j + run_len(s1, j, CharClass::Word);
        lemma_subrange_local(s1, w, j, k);
        lemma_names_local(s1, w, k);
    }
}

/// A node parsed inside `s1` parses the same when a space and more text
/// follow.
#[verifier::rlimit(60)]
proof fn lemma_node_local(s1: Seq<char>, w: Seq<char>, i: nat)
    requires
        w.len() > 0,
        w[0] == ' ',
        parse_node(s1, i) is Ok,
        parse_node(s1, i) != Ok::<Option<(Term, nat)>, ParseError>(None),
    ensures
        parse_node(s1 + w, i) == parse_node(s1, i),
    decreases s1.len() - i, 0nat,
{
    let s = s1 + w;
    lemma_run_len(s1, i, CharClass::Filler);
    lemma_run_local(s1, w, i, CharClass::Filler);
    let j = i + run_len(s1, i, CharClass::Filler);
    assert(s[j as int] == s1[j as int]);
    lemma_run_len(s1, j, CharClass::Digit);
    lemma_run_local(s1, w, j, CharClass::Digit);
    lemma_run_len(s1, j, CharClass::Word);
    lemma_run_local(s1, w, j, CharClass::Word);
    let kd = j + run_len(s1, j, CharClass::Digit);
    let k = j + run_len(s1, j, CharClass::Word);
    lemma_subrange_local(s1, w, j, kd);
    lemma_subrange_local(s1, w, j, k);
    if !is_digit(s1[j as int]) && k > j {
        if let Some(f) = form_of(s1.subrange(j as int, k as int)) {
            lemma_form_local(s1, w, f, k);
        }
    }
}

/// A node that must be present, parsed inside `s1`, parses the same when a
/// space and more text follow.
proof fn lemma_required_local(s1: Seq<char>, w: Seq<char>, i: nat)
    requires
        w.len() > 0,
        w[0] == ' ',
        required(s1, i) is Ok,
    ensures
        required(s1 + w, i) == required(s1, i),
    decreases s1.len() - i, 1nat,
{
    lemma_node_local(s1, w, i);
}

/// A list closed inside `s1` parses the same when a space and more text
/// follow.
#[verifier::rlimit(60)]
proof fn lemma_body_local(s1: Seq<char>, w: Seq<char>, i: nat)
    requires
        w.len() > 0,
        w[0] == ' ',
        parse_body(s1, i) is Ok,
    ensures
        parse_body(s1 + w, i) == parse_body(s1, i),
    decreases s1.len() - i, 1nat,
{
    let s = s1 + w;
    lemma_run_len(s1, i, CharClass::Space);
    lemma_run_local(s1, w, i, CharClass::Space);
    let j = i + run_len(s1, i, CharClass::Space);
    assert(s[j as int] == s1[j as int]);
    if s1[j as int] != ')' {
        lemma_node_local(s1, w, j);
        if let Ok(Some((_, k))) = parse_node(s1, j) {
            lemma_body_local(s1, w, k);
        }
    }
}

/// The rest of a keyword form parsed inside `s1` parses the same when a space
/// and more text follow.
#[verifier::rlimit(60)]
proof fn lemma_form_local(s1: Seq<char>, w: Seq<char>, f: Form, k: nat)
    requires
        w.len() > 0,
        w[0] == ' ',
        parse_form(s1, f, k) is Ok,
        k <= s1.len(),
    ensures
        parse_form(s1 + w, f, k) == parse_form(s1, f, k),
    decreases s1.len() - k, 0nat,
{
    let s = s1 + w;
    lemma_run_len(s1, k, CharClass::Space);
    lemma_run_local(s1, w, k, CharClass::Space);
    let p = k + 1 + run_len(s1, k, CharClass::Space);
    assert(s[(p - 1) as int] == s1[(p - 1) as int]);
    match f {
        Form::Define | Form::DefineFn => {
            lemma_run_len(s1, p, CharClass::Space);
            lemma_run_local(s1, w, p, CharClass::Space);
            let j = p + run_len(s1, p, CharClass::Space);
            assert(s[j as int] == s1[j as int]);
            lemma_run_len(s1, j, CharClass::Word);
            lemma_run_local(s1, w, j, CharClass::Word);
            let q = j + run_len(s1, j, CharClass::Word);
            lemma_subrange_local(s1, w, j, q);
            if f == Form::Define {
                lemma_required_local(s1, w, q);
                if let Ok((_, r)) = required(s1, q) {
                    lemma_run_len(s1, r, CharClass::Space);
                    lemma_run_local(s1, w, r, CharClass::Space);
                    let z = r + run_len(s1, r, CharClass::Space);
                    assert(s[z as int] == s1[z as int]);
                }
            } else {
                lemma_run_len(s1, q, CharClass::Space);
                lemma_run_local(s1, w, q, CharClass::Space);
                let q2 = q + 1 + run_len(s1, q, CharClass::Space);
                assert(s[(q2 - 1) as int] == s1[(q2 - 1) as int]);
                lemma_names_local(s1, w, q2);
                if let Ok((_, q3)) = names_until_close(s1, q2) {
                    lemma_body_local(s1, w, q3);
                }
            }
        },
        Form::Binary(_) => {
            lemma_required_local(s1, w, p);
            if let Ok((_, q)) = required(s1, p) {
                lemma_required_local(s1, w, q);
                if let Ok((_, r)) = required(s1, q) {
                    lemma_run_len(s1, r, CharClass::Space);
                    lemma_run_local(s1, w, r, CharClass::Space);
                    let z = r + run_len(s1, r, CharClass::Space);
                    assert(s[z as int] == s1[z as int]);
                }
            }
        },
        Form::Print => {
            lemma_body_local(s1, w, p);
        },
        Form::If | Form::While => {
            lemma_required_local(s1, w, p);
            if let Ok((_, q)) = required(s1, p) {
                lemma_body_local(s1, w, q);
            }
        },
        Form::For => {
            lemma_required_local(s1, w, p);
            if let Ok((_, q1)) = required(s1, p) {
                lemma_required_local(s1, w, q1);
                if let Ok((_, q2)) = required(s1, q1) {
                    lemma_required_local(s1, w, q2);
                    if let Ok((_, q3)) = required(s1, q2) {
                        lemma_body_local(s1, w, q3);
                    }
                }
            }
        },
    }
}

/// Whitespace and `)` up to a keyword form that never closes: the node
/// there is rejected.
#[verifier::rlimit(60)]
proof fn lemma_unterminated_node_fails(s: Seq<char>, i: nat, j: nat, f: Form, rest: Seq<char>)
    requires
        i <= j,
        j + form_word(f).len() + rest.len() == s.len(),
        forall|p: int| i <= p < j ==> in_class(CharClass::Filler, #[trigger] s[p]),
        at(s, j, form_word(f) + rest),
        forall|p: int| 0 <= p < rest.len() ==> #[trigger] rest[p] != ')',
        rest.len() == 0 || !is_word_char(rest[0]),
    ensures
        parse_node(s, i) is Err,
{
    let kw = form_word(f);
    lemma_keywords(f);
    lemma_at_split(s, j, kw, rest);
    assert(s[(j + 0) as int] == kw[0]);
    lemma_run_exact(s, i, (j - i) as nat, CharClass::Filler);
    if rest.len() > 0 {
        assert(s[(j + kw.len() + 0) as int] == rest[0]);
    }
    lemma_word_at(s, j, kw);
    let k = j + kw.len();
    assert forall|p: int| k <= p < s.len() implies #[trigger] s[p] != ')' by {
        assert(s[k + (p - k)] == rest[p - k]);
    }
    lemma_unclosed_form_fails(s, f, k);
}

/// Nodes parsed from `i` to the end of `s1`, then a space and a keyword form
/// that never closes: the whole is rejected.
#[verifier::rlimit(60)]
proof fn lemma_nodes_then_unterminated(s1: Seq<char>, i: nat, f: Form, rest: Seq<char>)
    requires
        i <= s1.len(),
        parse_nodes(s1, i) is Ok,
        forall|p: int| 0 <= p < rest.len() ==> #[trigger] rest[p] != ')',
        rest.len() == 0 || !is_word_char(rest[0]),
    ensures
        parse_nodes(s1 + (seq![' '] + (form_word(f) + rest)), i) is Err,
    decreases s1.len() - i,
{
    let t = form_word(f) + rest;
    let w = seq![' '] + t;
    let s = s1 + w;
    match parse_node(s1, i) {
        Ok(None) => {
            lemma_run_len(s1, i, CharClass::Filler);
            let j = s1.len() + 1;
            assert forall|p: int| i <= p < j implies in_class(CharClass::Filler, #[trigger] s[p]) by {
                if p < s1.len() {
                    assert(s[p] == s1[p]);
                } else {
                    assert(s[p] == w[0]);
                }
            }
            assert forall|p: int| 0 <= p < t.len() implies s[j + p] == #[trigger] t[p] by {
                assert(s[j + p] == w[1 + p]);
            }
            lemma_unterminated_node_fails(s, i, j, f, rest);
        },
        Ok(Some((_, k))) => {
            lemma_node_local(s1, w, i);
            lemma_nodes_then_unterminated(s1, k, f, rest);
        },
        Err(_) => {},
    }
}

/// A module that parses, followed by a space and a keyword form that never
/// closes (`print(`, `print(a`, `add(1`, `define(a`, `for(0 5`, ...), is
/// rejected with a parse error, never taken as the module before it.
pub proof fn lemma_unterminated_after_module_fails(s1: Seq<char>, f: Form, rest: Seq<char>)
    requires
        parse_module(s1) is Ok,
        forall|p: int| 0 <= p < rest.len() ==> #[trigger] rest[p] != ')',
        rest.len() == 0 || !is_word_char(rest[0]),
    ensures
        parse_module(s1 + seq![' '] + form_word(f) + rest) is Err,
{
    assert(s1 + seq![' '] + form_word(f) + rest =~= s1 + (seq![' '] + (form_word(f) + rest)));
    lemma_nodes_then_unterminated(s1, 0, f, rest);
}

} // verus!
