//! Evaluation: the meaning of a program as a function from a state to a
//! state and an outcome, and an interpreter that computes it.
//!
//! Every run of a `While` or `For` loop may make at most a fixed number of
//! iterations, the machine's loop limit; one more is a fault. This bounds
//! every evaluation.

use vstd::prelude::*;
use crate::ast::{BinOp, Node, Term, copy_names, copy_nodes, lemma_terms_of, names_of, terms_of};
use crate::table::Table;
use crate::text::{decimal, push_char, push_decimal};

verus! {

/// What evaluating a node produces: an integer, or nothing (a statement).
#[derive(Clone, Copy, Debug, PartialEq, Eq, Structural)]
pub enum Value {
    Int(i32),
    Nothing,
}

/// Why an evaluation stopped.
#[derive(Debug, PartialEq, Eq)]
pub enum EvalError {
    /// A name was read that is not bound.
    UnboundVariable(String),
    /// A function name was declared a second time.
    FunctionRedefined(String),
    /// A statement stood where an integer was needed.
    NotAValue,
    /// A loop would have run more iterations than the limit allows.
    LoopLimit,
}

/// The model of an [`EvalError`].
pub enum Fault {
    UnboundVariable(Seq<char>),
    FunctionRedefined(Seq<char>),
    NotAValue,
    LoopLimit,
}

impl View for EvalError {
    type V = Fault;

    open spec fn view(&self) -> Fault {
        match self {
            EvalError::UnboundVariable(x) => Fault::UnboundVariable(x@),
            EvalError::FunctionRedefined(f) => Fault::FunctionRedefined(f@),
            EvalError::NotAValue => Fault::NotAValue,
            EvalError::LoopLimit => Fault::LoopLimit,
        }
    }
}

/// A declared function: its parameter names and its body. Declarations are
/// recorded, never invoked.
#[derive(Debug, PartialEq, Eq)]
pub struct FunctionDef {
    pub params: Vec<String>,
    pub body: Vec<Node>,
}

/// The model of a [`FunctionDef`].
pub struct FnModel {
    pub params: Seq<Seq<char>>,
    pub body: Seq<Term>,
}

impl View for FunctionDef {
    type V = FnModel;

    open spec fn view(&self) -> FnModel {
        FnModel { params: names_of(self.params@), body: terms_of(self.body@) }
    }
}

/// The state of an evaluation: the variables, the declared functions, and
/// the text printed so far.
pub struct State {
    pub vars: Map<Seq<char>, i32>,
    pub funcs: Map<Seq<char>, FnModel>,
    pub out: Seq<char>,
}

/// The state before anything has run.
pub open spec fn initial_state() -> State {
    State { vars: Map::empty(), funcs: Map::empty(), out: Seq::empty() }
}

/// `st` with `x` bound to `n`.
pub open spec fn with_var(st: State, x: Seq<char>, n: i32) -> State {
    State { vars: st.vars.insert(x, n), funcs: st.funcs, out: st.out }
}

/// `st` with no binding for `x`.
pub open spec fn without_var(st: State, x: Seq<char>) -> State {
    State { vars: st.vars.remove(x), funcs: st.funcs, out: st.out }
}

/// `st` with `text` printed after what was printed before.
pub open spec fn emit(st: State, text: Seq<char>) -> State {
    State { vars: st.vars, funcs: st.funcs, out: st.out + text }
}

/// The name of the counter that a `For` loop binds while it runs.
pub open spec fn counter_name() -> Seq<char> {
    seq!['_', 'i']
}

/// `x` reduced into the range of `i32` by 32-bit wraparound, for `x` at most
/// one turn outside it (as a sum or difference of two `i32` is).
pub open spec fn wrap(x: int) -> i32 {
    if x > i32::MAX {
        (x - 0x1_0000_0000) as i32
    } else if x < i32::MIN {
        (x + 0x1_0000_0000) as i32
    } else {
        x as i32
    }
}

/// 1 for true, 0 for false.
pub open spec fn flag(b: bool) -> i32 {
    if b { 1 } else { 0 }
}

/// The result of a binary operator on two integers.
pub open spec fn apply(op: BinOp, x: i32, y: i32) -> i32 {
    match op {
        BinOp::Add => wrap(x + y),
        BinOp::Sub => wrap(x - y),
        BinOp::Equal => flag(x == y),
        BinOp::NotEqual => flag(x != y),
        BinOp::Less => flag(x < y),
        BinOp::More => flag(x > y),
    }
}

/// Evaluates `t` in `st`, where each run of a loop may make at most `lim`
/// iterations. The state is returned also when the evaluation fails: it is
/// the state at the point of failure.
pub open spec fn eval(lim: nat, t: Term, st: State) -> (State, Result<Value, Fault>)
    decreases t, lim + 1,
{
    match t {
        Term::Number(n) => (st, Ok(Value::Int(n))),
        Term::Ident(x) => if st.vars.contains_key(x) {
            (st, Ok(Value::Int(st.vars[x])))
        } else {
            (st, Err(Fault::UnboundVariable(x)))
        },
        Term::Define(x, v) => {
            let (s1, r) = eval_int(lim, *v, st);
            match r {
                Ok(n) => (with_var(s1, x, n), Ok(Value::Nothing)),
                Err(e) => (s1, Err(e)),
            }
        },
        Term::Binary(op, a, b) => {
            let (s1, ra) = eval_int(lim, *a, st);
            match ra {
                Err(e) => (s1, Err(e)),
                Ok(x) => {
                    let (s2, rb) = eval_int(lim, *b, s1);
                    match rb {
                        Err(e) => (s2, Err(e)),
                        Ok(y) => (s2, Ok(Value::Int(apply(op, x, y)))),
                    }
                },
            }
        },
        Term::Print(args) => print_args(lim, args, 0, st),
        Term::If(c, body) => {
            let (s1, r) = eval_int(lim, *c, st);
            match r {
                Err(e) => (s1, Err(e)),
                Ok(n) => if n != 0 {
                    eval_seq(lim, body, 0, s1)
                } else {
                    (s1, Ok(Value::Nothing))
                },
            }
        },
        Term::While(_, _) => while_loop(lim, lim, t, st),
        Term::For(a, b, d, _) => {
            let (s1, ra) = eval_int(lim, *a, st);
            match ra {
                Err(e) => (s1, Err(e)),
                Ok(start) => {
                    let (s2, rb) = eval_int(lim, *b, s1);
                    match rb {
                        Err(e) => (s2, Err(e)),
                        Ok(bound) => {
                            let (s3, rd) = eval_int(lim, *d, s2);
                            match rd {
                                Err(e) => (s3, Err(e)),
                                Ok(step) => for_loop(
                                    lim,
                                    lim,
                                    t,
                                    start,
                                    bound,
                                    step,
                                    with_var(s3, counter_name(), start),
                                ),
                            }
                        },
                    }
                },
            }
        },
        Term::DefineFn(f, params, body) => if st.funcs.contains_key(f) {
            (st, Err(Fault::FunctionRedefined(f)))
        } else {
            (
                State {
                    vars: st.vars,
                    funcs: st.funcs.insert(f, FnModel { params, body }),
                    out: st.out,
                },
                Ok(Value::Nothing),
            )
        },
    }
}

/// Evaluates `t` where an integer is needed: a result of nothing is a fault.
pub open spec fn eval_int(lim: nat, t: Term, st: State) -> (State, Result<i32, Fault>)
    decreases t, lim + 2,
{
    let (s1, r) = eval(lim, t, st);
    match r {
        Ok(Value::Int(n)) => (s1, Ok(n)),
        Ok(Value::Nothing) => (s1, Err(Fault::NotAValue)),
        Err(e) => (s1, Err(e)),
    }
}

/// Evaluates `ts[i..]` in order, stopping at the first fault.
pub open spec fn eval_seq(lim: nat, ts: Seq<Term>, i: nat, st: State) -> (State, Result<Value, Fault>)
    decreases ts, ts.len() - i,
{
    if i >= ts.len() {
        (st, Ok(Value::Nothing))
    } else {
        let (s1, r) = eval(lim, ts[i as int], st);
        match r {
            Err(e) => (s1, Err(e)),
            Ok(_) => eval_seq(lim, ts, i + 1, s1),
        }
    }
}

/// Prints the values of `args[i..]`, each followed by a space, then ends the
/// line.
pub open spec fn print_args(lim: nat, args: Seq<Term>, i: nat, st: State) -> (State, Result<Value, Fault>)
    decreases args, args.len() - i,
{
    if i >= args.len() {
        (emit(st, seq!['\n']), Ok(Value::Nothing))
    } else {
        let (s1, r) = eval_int(lim, args[i as int], st);
        match r {
            Err(e) => (s1, Err(e)),
            Ok(n) => print_args(lim, args, i + 1, emit(s1, decimal(n as int).push(' '))),
        }
    }
}

/// The rest of a `While` loop `t`, which may make `k` more iterations.
pub open spec fn while_loop(lim: nat, k: nat, t: Term, st: State) -> (State, Result<Value, Fault>)
    decreases t, k,
{
    match t {
        Term::While(c, body) => {
            let (s1, r) = eval_int(lim, *c, st);
            match r {
                Err(e) => (s1, Err(e)),
                Ok(n) => if n == 0 {
                    (s1, Ok(Value::Nothing))
                } else if k == 0 {
                    (s1, Err(Fault::LoopLimit))
                } else {
                    let (s2, rb) = eval_seq(lim, body, 0, s1);
                    match rb {
                        Err(e) => (s2, Err(e)),
                        Ok(_) => while_loop(lim, (k - 1) as nat, t, s2),
                    }
                },
            }
        },
        _ => (st, Ok(Value::Nothing)),
    }
}

/// The rest of a `For` loop `t` whose counter stands at `counter`, which may
/// make `k` more iterations.
pub open spec fn for_loop(
    lim: nat,
    k: nat,
    t: Term,
    counter: i32,
    bound: i32,
    step: i32,
    st: State,
) -> (State, Result<Value, Fault>)
    decreases t, k,
{
    match t {
        Term::For(_, _, _, body) => if counter < bound {
            if k == 0 {
                (st, Err(Fault::LoopLimit))
            } else {
                let (s1, r) = eval_seq(lim, body, 0, st);
                match r {
                    Err(e) => (s1, Err(e)),
                    Ok(_) => {
                        let next = wrap(counter + step);
                        for_loop(lim, (k - 1) as nat, t, next, bound, step, with_var(s1, counter_name(), next))
                    },
                }
            }
        } else {
            (without_var(st, counter_name()), Ok(Value::Nothing))
        },
        _ => (st, Ok(Value::Nothing)),
    }
}

/// The model of an exec outcome.
pub open spec fn outcome<T>(r: Result<T, EvalError>) -> Result<T, Fault> {
    match r {
        Ok(v) => Ok(v),
        Err(e) => Err(e@),
    }
}

/// `x` reduced into the range of `i32` by 32-bit wraparound.
fn wrap_exec(x: i64) -> (r: i32)
    requires
        i32::MIN - 0x1_0000_0000 <= x <= i32::MAX + 0x1_0000_0000,
    ensures
        r == wrap(x as int),
{
    if x > 2147483647 {
        (x - 4294967296) as i32
    } else if x < -2147483648 {
        (x + 4294967296) as i32
    } else {
        x as i32
    }
}

/// The result of a binary operator on two integers.
pub fn apply_op(op: BinOp, x: i32, y: i32) -> (r: i32)
    ensures
        r == apply(op, x, y),
{
    match op {
        BinOp::Add => wrap_exec(x as i64 + y as i64),
        BinOp::Sub => wrap_exec(x as i64 - y as i64),
        BinOp::Equal => if x == y { 1 } else { 0 },
        BinOp::NotEqual => if x != y { 1 } else { 0 },
        BinOp::Less => if x < y { 1 } else { 0 },
        BinOp::More => if x > y { 1 } else { 0 },
    }
}

/// The name of the counter that a `For` loop binds.
fn counter_string() -> (r: String)
    ensures
        r@ == counter_name(),
{
    let mut r = String::new();
    push_char(&mut r, '_');
    push_char(&mut r, 'i');
    assert(r@ =~= counter_name());
    r
}

/// An evaluator: the variables, the declared functions, the printed text,
/// and the most iterations that one run of a loop may make.
pub struct Machine {
    pub vars: Table<i32>,
    pub funcs: Table<FunctionDef>,
    pub out: String,
    pub loop_limit: u64,
}

impl View for Machine {
    type V = State;

    open spec fn view(&self) -> State {
        State { vars: self.vars@, funcs: self.funcs@, out: self.out@ }
    }
}

impl Machine {
    /// Both tables are well formed.
    pub open spec fn wf(&self) -> bool {
        self.vars.wf() && self.funcs.wf()
    }

    /// A machine with no variables, no functions and nothing printed.
    pub fn new(loop_limit: u64) -> (r: Machine)
        ensures
            r.wf(),
            r@ == initial_state(),
            r.loop_limit == loop_limit,
    {
        let m = Machine { vars: Table::new(), funcs: Table::new(), out: String::new(), loop_limit };
        assert(m@.out =~= Seq::<char>::empty());
        m
    }

    /// Evaluates `node`, updating the machine as [`eval`] says.
    pub fn eval_func(&mut self, node: &Node) -> (r: Result<Value, EvalError>)
        requires
            old(self).wf(),
        ensures
            final(self).wf(),
            final(self).loop_limit == old(self).loop_limit,
            (final(self)@, outcome(r)) == eval(old(self).loop_limit as nat, node@, old(self)@),
        decreases node, 1nat,
    {
        let ghost lim = self.loop_limit as nat;
        match node {
            Node::Number(n) => Ok(Value::Int(*n)),
            Node::Ident(x) => match self.vars.get(x) {
                Some(v) => Ok(Value::Int(*v)),
                None => Err(EvalError::UnboundVariable(x.clone())),
            },
            Node::Define(x, v) => match self.eval_int(v) {
                Ok(n) => {
                    self.vars.insert(x.clone(), n);
                    Ok(Value::Nothing)
                },
                Err(e) => Err(e),
            },
            Node::Add(_, _) | Node::Sub(_, _) | Node::Equal(_, _) | Node::NotEqual(_, _)
            | Node::Less(_, _) | Node::More(_, _) => self.eval_binary(node),
            Node::Print(args) => self.eval_print(node),
            Node::If(c, body) => match self.eval_int(c) {
                Err(e) => Err(e),
                Ok(n) => if n != 0 {
                    self.eval_block(body)
                } else {
                    Ok(Value::Nothing)
                },
            },
            Node::While(_, _) => self.eval_while(node),
            Node::For(_, _, _, _) => self.eval_for(node),
            Node::DefineFn(f, params, body) => {
                if self.funcs.contains_key(f) {
                    Err(EvalError::FunctionRedefined(f.clone()))
                } else {
                    let def = FunctionDef { params: copy_names(params), body: copy_nodes(body) };
                    self.funcs.insert(f.clone(), def);
                    Ok(Value::Nothing)
                }
            },
        }
    }

    /// Evaluates `node` where an integer is needed.
    pub fn eval_int(&mut self, node: &Node) -> (r: Result<i32, EvalError>)
        requires
            old(self).wf(),
        ensures
            final(self).wf(),
            final(self).loop_limit == old(self).loop_limit,
            (final(self)@, outcome(r)) == eval_int(old(self).loop_limit as nat, node@, old(self)@),
        decreases node, 2nat,
    {
        match self.eval_func(node) {
            Ok(Value::Int(n)) => Ok(n),
            Ok(Value::Nothing) => Err(EvalError::NotAValue),
            Err(e) => Err(e),
        }
    }

    /// Evaluates a list of nodes in order, stopping at the first fault.
    #[verifier::loop_isolation(false)]
    pub fn eval_block(&mut self, nodes: &Vec<Node>) -> (r: Result<Value, EvalError>)
        requires
            old(self).wf(),
        ensures
            final(self).wf(),
            final(self).loop_limit == old(self).loop_limit,
            (final(self)@, outcome(r)) == eval_seq(
                old(self).loop_limit as nat,
                terms_of(nodes@),
                0,
                old(self)@,
            ),
        decreases nodes, 0nat,
    {
        let ghost lim = self.loop_limit as nat;
        let ghost ts = terms_of(nodes@);
        let ghost target = eval_seq(lim, ts, 0, self@);
        proof {
            lemma_terms_of(nodes@);
        }
        let mut i: usize = 0;
        while i < nodes.len()
            invariant
                self.wf(),
                self.loop_limit == lim,
                i <= nodes@.len(),
                ts.len() == nodes@.len(),
                forall|j: int| 0 <= j < nodes@.len() ==> #[trigger] ts[j] == nodes@[j]@,
                eval_seq(lim, ts, i as nat, self@) == target,
            decreases nodes.len() - i,
        {
            match self.eval_func(&nodes[i]) {
                Err(e) => {
                    return Err(e);
                },
                Ok(_) => {},
            }
            i += 1;
        }
        Ok(Value::Nothing)
    }

    /// Evaluates a binary node.
    fn eval_binary(&mut self, node: &Node) -> (r: Result<Value, EvalError>)
        requires
            old(self).wf(),
            node@ is Binary,
        ensures
            final(self).wf(),
            final(self).loop_limit == old(self).loop_limit,
            (final(self)@, outcome(r)) == eval(old(self).loop_limit as nat, node@, old(self)@),
        decreases node, 0nat,
    {
        let (op, a, b) = match node {
            Node::Add(a, b) => (BinOp::Add, a, b),
            Node::Sub(a, b) => (BinOp::Sub, a, b),
            Node::Equal(a, b) => (BinOp::Equal, a, b),
            Node::NotEqual(a, b) => (BinOp::NotEqual, a, b),
            Node::Less(a, b) => (BinOp::Less, a, b),
            Node::More(a, b) => (BinOp::More, a, b),
            _ => {
                return Ok(Value::Nothing);
            },
        };
        let x = match self.eval_int(a) {
            Ok(x) => x,
            Err(e) => {
                return Err(e);
            },
        };
        let y = match self.eval_int(b) {
            Ok(y) => y,
            Err(e) => {
                return Err(e);
            },
        };
        Ok(Value::Int(apply_op(op, x, y)))
    }

    /// Evaluates a `Print` node.
    #[verifier::loop_isolation(false)]
    fn eval_print(&mut self, node: &Node) -> (r: Result<Value, EvalError>)
        requires
            old(self).wf(),
            node@ is Print,
        ensures
            final(self).wf(),
            final(self).loop_limit == old(self).loop_limit,
            (final(self)@, outcome(r)) == eval(old(self).loop_limit as nat, node@, old(self)@),
        decreases node, 0nat,
    {
        let args = match node {
            Node::Print(args) => args,
            _ => {
                return Ok(Value::Nothing);
            },
        };
        let ghost lim = self.loop_limit as nat;
        let ghost ts = terms_of(args@);
        let ghost target = print_args(lim, ts, 0, self@);
        proof {
            lemma_terms_of(args@);
        }
        let mut i: usize = 0;
        while i < args.len()
            invariant
                self.wf(),
                self.loop_limit == lim,
                i <= args@.len(),
                ts.len() == args@.len(),
                forall|j: int| 0 <= j < args@.len() ==> #[trigger] ts[j] == args@[j]@,
                print_args(lim, ts, i as nat, self@) == target,
            decreases args.len() - i,
        {
            match self.eval_int(&args[i]) {
                Err(e) => {
                    return Err(e);
                },
                Ok(n) => {
                    let ghost before = self@;
                    push_decimal(&mut self.out, n);
                    push_char(&mut self.out, ' ');
                    assert(self@ == emit(before, decimal(n as int).push(' ')));
                },
            }
            i += 1;
        }
        let ghost before = self@;
        push_char(&mut self.out, '\n');
        assert(self.out@ =~= before.out + seq!['\n']);
        Ok(Value::Nothing)
    }

    /// Evaluates a `While` node.
    #[verifier::loop_isolation(false)]
    fn eval_while(&mut self, node: &Node) -> (r: Result<Value, EvalError>)
        requires
            old(self).wf(),
            node@ is While,
        ensures
            final(self).wf(),
            final(self).loop_limit == old(self).loop_limit,
            (final(self)@, outcome(r)) == eval(old(self).loop_limit as nat, node@, old(self)@),
        decreases node, 0nat,
    {
        let (c, body) = match node {
            Node::While(c, body) => (c, body),
            _ => {
                return Ok(Value::Nothing);
            },
        };
        let ghost lim = self.loop_limit as nat;
        let ghost target = eval(lim, node@, self@);
        let mut k: u64 = self.loop_limit;
        loop
            invariant
                self.wf(),
                self.loop_limit == lim,
                while_loop(lim, k as nat, node@, self@) == target,
            decreases k,
        {
            let n = match self.eval_int(c) {
                Ok(n) => n,
                Err(e) => {
                    return Err(e);
                },
            };
            if n == 0 {
                return Ok(Value::Nothing);
            }
            if k == 0 {
                return Err(EvalError::LoopLimit);
            }
            match self.eval_block(body) {
                Err(e) => {
                    return Err(e);
                },
                Ok(_) => {},
            }
            k -= 1;
        }
    }

    /// Evaluates a `For` node.
    #[verifier::loop_isolation(false)]
    fn eval_for(&mut self, node: &Node) -> (r: Result<Value, EvalError>)
        requires
            old(self).wf(),
            node@ is For,
        ensures
            final(self).wf(),
            final(self).loop_limit == old(self).loop_limit,
            (final(self)@, outcome(r)) == eval(old(self).loop_limit as nat, node@, old(self)@),
        decreases node, 0nat,
    {
        let (a, b, d, body) = match node {
            Node::For(a, b, d, body) => (a, b, d, body),
            _ => {
                return Ok(Value::Nothing);
            },
        };
        let ghost lim = self.loop_limit as nat;
        let ghost target = eval(lim, node@, self@);
        let start = match self.eval_int(a) {
            Ok(n) => n,
            Err(e) => {
                return Err(e);
            },
        };
        let bound = match self.eval_int(b) {
            Ok(n) => n,
            Err(e) => {
                return Err(e);
            },
        };
        let step = match self.eval_int(d) {
            Ok(n) => n,
            Err(e) => {
                return Err(e);
            },
        };
        let mut counter: i32 = start;
        self.vars.insert(counter_string(), counter);
        let mut k: u64 = self.loop_limit;
        loop
            invariant
                self.wf(),
                self.loop_limit == lim,
                for_loop(lim, k as nat, node@, counter, bound, step, self@) == target,
            decreases k,
        {
            if counter >= bound {
                self.vars.remove(&counter_string());
                return Ok(Value::Nothing);
            }
            if k == 0 {
                return Err(EvalError::LoopLimit);
            }
            match self.eval_block(body) {
                Err(e) => {
                    return Err(e);
                },
                Ok(_) => {},
            }
            counter = wrap_exec(counter as i64 + step as i64);
            self.vars.insert(counter_string(), counter);
            k -= 1;
        }
    }
}

/// The final state and outcome of running a module on a fresh machine.
pub open spec fn run_module(lim: nat, module: Seq<Term>) -> (State, Result<(), Fault>) {
    let (st, r) = eval_seq(lim, module, 0, initial_state());
    (st, match r {
        Ok(_) => Ok(()),
        Err(e) => Err(e),
    })
}

/// Runs the nodes of a module in order on a fresh machine whose loops may
/// each make at most `loop_limit` iterations, and returns the machine as the
/// run left it, with the first fault if there was one.
pub fn run(module: &Vec<Node>, loop_limit: u64) -> (r: (Machine, Result<(), EvalError>))
    ensures
        r.0.wf(),
        r.0.loop_limit == loop_limit,
        (r.0@, outcome(r.1)) == run_module(loop_limit as nat, terms_of(module@)),
{
    let mut m = Machine::new(loop_limit);
    let r = match m.eval_block(module) {
        Ok(_) => Ok(()),
        Err(e) => Err(e),
    };
    (m, r)
}

/// A number literal evaluates to exactly its value, and changes nothing.
pub proof fn lemma_number_is_its_value(lim: nat, n: i32, st: State)
    ensures
        eval(lim, Term::Number(n), st) == (st, Ok::<Value, Fault>(Value::Int(n))),
{
}

/// Defining `x` as `n` binds it to `n`, replacing any earlier binding, and
/// reading `x` afterwards gives `n`; defining it again as `m` leaves `m`.
pub proof fn lemma_define_then_read(lim: nat, st: State, x: Seq<char>, n: i32, m: i32)
    ensures
        ({
            let (s1, r1) = eval(lim, Term::Define(x, Box::new(Term::Number(n))), st);
            &&& r1 == Ok::<Value, Fault>(Value::Nothing)
            &&& s1 == with_var(st, x, n)
            &&& eval(lim, Term::Ident(x), s1) == (s1, Ok::<Value, Fault>(Value::Int(n)))
            &&& {
                let (s2, r2) = eval(lim, Term::Define(x, Box::new(Term::Number(m))), s1);
                &&& r2 == Ok::<Value, Fault>(Value::Nothing)
                &&& s2.vars == st.vars.insert(x, m)
                &&& eval(lim, Term::Ident(x), s2) == (s2, Ok::<Value, Fault>(Value::Int(m)))
            }
        }),
{
    assert(eval_int(lim, Term::Number(n), st) == (st, Ok::<i32, Fault>(n)));
    let s1 = with_var(st, x, n);
    assert(eval_int(lim, Term::Number(m), s1) == (s1, Ok::<i32, Fault>(m)));
    assert(s1.vars.insert(x, m) =~= st.vars.insert(x, m));
}

/// Adding two literals gives their sum wrapped into 32 bits: the sum itself
/// when it fits, else the sum moved by 2^32 into range.
pub proof fn lemma_add_wraps(lim: nat, st: State, a: i32, b: i32)
    ensures
        ({
            let (s1, r) = eval(lim, Term::Binary(BinOp::Add, Box::new(Term::Number(a)), Box::new(Term::Number(b))), st);
            &&& s1 == st
            &&& r matches Ok(Value::Int(v))
            &&& (i32::MIN <= a + b <= i32::MAX ==> v == a + b)
            &&& (a + b > i32::MAX ==> v == a + b - 0x1_0000_0000)
            &&& (a + b < i32::MIN ==> v == a + b + 0x1_0000_0000)
        }),
{
    assert(eval_int(lim, Term::Number(a), st) == (st, Ok::<i32, Fault>(a)));
    assert(eval_int(lim, Term::Number(b), st) == (st, Ok::<i32, Fault>(b)));
}

/// A comparison gives 0 or 1 whenever it gives a value.
pub proof fn lemma_comparison_is_flag(lim: nat, st: State, op: BinOp, a: Term, b: Term)
    requires
        op != BinOp::Add && op != BinOp::Sub,
    ensures
        eval(lim, Term::Binary(op, Box::new(a), Box::new(b)), st).1 matches Ok(v) ==> (v == Value::Int(0) || v == Value::Int(1)),
{
}

/// The rest of a `For` loop that finishes leaves no counter bound.
proof fn lemma_for_loop_unbinds(lim: nat, k: nat, t: Term, counter: i32, bound: i32, step: i32, st: State)
    requires
        t is For,
    ensures
        for_loop(lim, k, t, counter, bound, step, st).1 is Ok
            ==> !for_loop(lim, k, t, counter, bound, step, st).0.vars.contains_key(counter_name()),
    decreases k,
{
    if counter < bound && k > 0 {
        if let Term::For(_, _, _, body) = t {
            let (s1, r) = eval_seq(lim, body, 0, st);
            if r is Ok {
                let next = wrap(counter + step);
                lemma_for_loop_unbinds(lim, (k - 1) as nat, t, next, bound, step, with_var(s1, counter_name(), next));
            }
        }
    }
}

/// A `For` loop that finishes removes its counter: afterwards `_i` is not
/// bound, and reading it is an unbound-variable fault.
pub proof fn lemma_for_removes_counter(lim: nat, st: State, a: Term, b: Term, d: Term, body: Seq<Term>)
    ensures
        ({
            let (s1, r) = eval(lim, Term::For(Box::new(a), Box::new(b), Box::new(d), body), st);
            r is Ok ==> {
                &&& !s1.vars.contains_key(counter_name())
                &&& eval(lim, Term::Ident(counter_name()), s1) == (s1, Err::<Value, Fault>(Fault::UnboundVariable(counter_name())))
            }
        }),
{
    let t = Term::For(Box::new(a), Box::new(b), Box::new(d), body);
    let (s1, ra) = eval_int(lim, a, st);
    if let Ok(start) = ra {
        let (s2, rb) = eval_int(lim, b, s1);
        if let Ok(bound) = rb {
            let (s3, rd) = eval_int(lim, d, s2);
            if let Ok(step) = rd {
                lemma_for_loop_unbinds(lim, lim, t, start, bound, step, with_var(s3, counter_name(), start));
            }
        }
    }
}

/// A `While` loop whose condition is false at first never runs its body: the
/// state is the one that the condition left.
pub proof fn lemma_false_while_skips_body(lim: nat, st: State, c: Term, body: Seq<Term>)
    requires
        eval_int(lim, c, st).1 == Ok::<i32, Fault>(0),
    ensures
        eval(lim, Term::While(Box::new(c), body), st) == (eval_int(lim, c, st).0, Ok::<Value, Fault>(Value::Nothing)),
{
}

/// An `If` whose condition is false runs nothing of its body: no output and
/// no binding beyond what the condition itself did.
pub proof fn lemma_false_if_skips_body(lim: nat, st: State, c: Term, body: Seq<Term>)
    requires
        eval_int(lim, c, st).1 == Ok::<i32, Fault>(0),
    ensures
        eval(lim, Term::If(Box::new(c), body), st) == (eval_int(lim, c, st).0, Ok::<Value, Fault>(Value::Nothing)),
{
}

} // verus!
