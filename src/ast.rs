//! The syntax tree of a program, and its mathematical model.

use vstd::prelude::*;

verus! {

/// One node of a program: an expression or a statement. Each composite node
/// owns its children.
#[derive(Debug, PartialEq, Eq)]
pub enum Node {
    Number(i32),
    Ident(String),
    Define(String, Box<Node>),
    Add(Box<Node>, Box<Node>),
    Sub(Box<Node>, Box<Node>),
    Equal(Box<Node>, Box<Node>),
    NotEqual(Box<Node>, Box<Node>),
    Less(Box<Node>, Box<Node>),
    More(Box<Node>, Box<Node>),
    Print(Vec<Node>),
    If(Box<Node>, Vec<Node>),
    While(Box<Node>, Vec<Node>),
    For(Box<Node>, Box<Node>, Box<Node>, Vec<Node>),
    DefineFn(String, Vec<String>, Vec<Node>),
}

/// The binary operators: two kinds of arithmetic and four comparisons.
#[derive(Clone, Copy, Debug, PartialEq, Eq, Structural)]
pub enum BinOp {
    Add,
    Sub,
    Equal,
    NotEqual,
    Less,
    More,
}

/// The mathematical model of a [`Node`]: names are character sequences and
/// child lists are sequences.
pub enum Term {
    Number(i32),
    Ident(Seq<char>),
    Define(Seq<char>, Box<Term>),
    Binary(BinOp, Box<Term>, Box<Term>),
    Print(Seq<Term>),
    If(Box<Term>, Seq<Term>),
    While(Box<Term>, Seq<Term>),
    For(Box<Term>, Box<Term>, Box<Term>, Seq<Term>),
    DefineFn(Seq<char>, Seq<Seq<char>>, Seq<Term>),
}

/// The models of a list of nodes, element by element.
pub open spec fn terms_of(nodes: Seq<Node>) -> Seq<Term>
    decreases nodes,
{
    if nodes.len() == 0 {
        Seq::empty()
    } else {
        terms_of(nodes.drop_last()).push(term_of(nodes.last()))
    }
}

/// The names of a list of strings.
pub open spec fn names_of(names: Seq<String>) -> Seq<Seq<char>> {
    names.map_values(|s: String| s@)
}

/// The model of one node.
pub open spec fn term_of(node: Node) -> Term
    decreases node,
{
    match node {
        Node::Number(n) => Term::Number(n),
        Node::Ident(x) => Term::Ident(x@),
        Node::Define(x, v) => Term::Define(x@, Box::new(term_of(*v))),
        Node::Add(a, b) => Term::Binary(BinOp::Add, Box::new(term_of(*a)), Box::new(term_of(*b))),
        Node::Sub(a, b) => Term::Binary(BinOp::Sub, Box::new(term_of(*a)), Box::new(term_of(*b))),
        Node::Equal(a, b) => Term::Binary(BinOp::Equal, Box::new(term_of(*a)), Box::new(term_of(*b))),
        Node::NotEqual(a, b) => Term::Binary(BinOp::NotEqual, Box::new(term_of(*a)), Box::new(term_of(*b))),
        Node::Less(a, b) => Term::Binary(BinOp::Less, Box::new(term_of(*a)), Box::new(term_of(*b))),
        Node::More(a, b) => Term::Binary(BinOp::More, Box::new(term_of(*a)), Box::new(term_of(*b))),
        Node::Print(args) => Term::Print(terms_of(args@)),
        Node::If(c, body) => Term::If(Box::new(term_of(*c)), terms_of(body@)),
        Node::While(c, body) => Term::While(Box::new(term_of(*c)), terms_of(body@)),
        Node::For(a, b, s, body) => Term::For(
            Box::new(term_of(*a)),
            Box::new(term_of(*b)),
            Box::new(term_of(*s)),
            terms_of(body@),
        ),
        Node::DefineFn(f, params, body) => Term::DefineFn(f@, names_of(params@), terms_of(body@)),
    }
}

impl View for Node {
    type V = Term;

    open spec fn view(&self) -> Term {
        term_of(*self)
    }
}

/// The models of a list of nodes have the list's length, and each is the model
/// of the node at the same place.
pub proof fn lemma_terms_of(nodes: Seq<Node>)
    ensures
        terms_of(nodes).len() == nodes.len(),
        forall|i: int| 0 <= i < nodes.len() ==> #[trigger] terms_of(nodes)[i] == term_of(nodes[i]),
    decreases nodes.len(),
{
    if nodes.len() > 0 {
        lemma_terms_of(nodes.drop_last());
    }
}

/// A copy of a list of strings, with the same names.
pub fn copy_names(names: &Vec<String>) -> (r: Vec<String>)
    ensures
        names_of(r@) == names_of(names@),
{
    let mut r: Vec<String> = Vec::new();
    let mut i: usize = 0;
    while i < names.len()
        invariant
            i <= names.len(),
            r@.len() == i,
            forall|j: int| 0 <= j < i ==> #[trigger] r@[j]@ == names@[j]@,
        decreases names.len() - i,
    {
        r.push(names[i].clone());
        i += 1;
    }
    assert(names_of(r@) =~= names_of(names@));
    r
}

/// A deep copy of a node, with the same model.
pub fn copy_node(node: &Node) -> (r: Node)
    ensures
        r@ == node@,
    decreases node,
{
    match node {
        Node::Number(n) => Node::Number(*n),
        Node::Ident(x) => Node::Ident(x.clone()),
        Node::Define(x, v) => Node::Define(x.clone(), Box::new(copy_node(v))),
        Node::Add(a, b) => Node::Add(Box::new(copy_node(a)), Box::new(copy_node(b))),
        Node::Sub(a, b) => Node::Sub(Box::new(copy_node(a)), Box::new(copy_node(b))),
        Node::Equal(a, b) => Node::Equal(Box::new(copy_node(a)), Box::new(copy_node(b))),
        Node::NotEqual(a, b) => Node::NotEqual(Box::new(copy_node(a)), Box::new(copy_node(b))),
        Node::Less(a, b) => Node::Less(Box::new(copy_node(a)), Box::new(copy_node(b))),
        Node::More(a, b) => Node::More(Box::new(copy_node(a)), Box::new(copy_node(b))),
        Node::Print(args) => Node::Print(copy_nodes(args)),
        Node::If(c, body) => Node::If(Box::new(copy_node(c)), copy_nodes(body)),
        Node::While(c, body) => Node::While(Box::new(copy_node(c)), copy_nodes(body)),
        Node::For(a, b, s, body) => Node::For(
            Box::new(copy_node(a)),
            Box::new(copy_node(b)),
            Box::new(copy_node(s)),
            copy_nodes(body),
        ),
        Node::DefineFn(f, params, body) => Node::DefineFn(
            f.clone(),
            copy_names(params),
            copy_nodes(body),
        ),
    }
}

/// A deep copy of a list of nodes, with the same models.
pub fn copy_nodes(nodes: &Vec<Node>) -> (r: Vec<Node>)
    ensures
        terms_of(r@) == terms_of(nodes@),
    decreases nodes,
{
    let mut r: Vec<Node> = Vec::new();
    let mut i: usize = 0;
    proof {
        lemma_terms_of(nodes@);
    }
    while i < nodes.len()
        invariant
            i <= nodes.len(),
            r@.len() == i,
            terms_of(nodes@).len() == nodes@.len(),
            forall|j: int| 0 <= j < nodes@.len() ==> #[trigger] terms_of(nodes@)[j] == term_of(nodes@[j]),
            forall|j: int| 0 <= j < i ==> #[trigger] term_of(r@[j]) == term_of(nodes@[j]),
        decreases nodes.len() - i,
    {
        r.push(copy_node(&nodes[i]));
        i += 1;
    }
    proof {
        lemma_terms_of(r@);
        assert(terms_of(r@) =~= terms_of(nodes@));
    }
    r
}

} // verus!
