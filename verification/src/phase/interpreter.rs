//! The interpreter: an expression and an environment to a value.

use vstd::prelude::*;
use vstd::string::*;
use crate::language::ast::{Ast, AstView};
use crate::language::token::{Token, TokenKind, TokenKindView, TokenView};
use crate::config::Config;
use crate::language::token::Position;
use crate::message::{
    message_views, push_message, Content, ContentView, Message, MessageView, Severity,
};
use crate::phase::phase::{Phase, PhaseResult};
use crate::text::{decimal, decimal_string, str_eq};

verus! {

/// What an expression evaluates to.
#[derive(PartialEq, Debug)]
pub enum Value {
    Bool(bool),
    Number(i64),
    /// A function: its parameter, its body, and the environment in which it
    /// was made.
    Func(Token, Ast, Environment),
}

/// One name of an environment with its value.
#[derive(PartialEq, Debug)]
pub struct Slot {
    pub name: String,
    pub value: Value,
}

/// The values of the names in scope.
#[derive(PartialEq, Debug)]
pub struct Environment {
    pub slots: Vec<Slot>,
}

/// Mathematical model of [`Value`].
pub enum ValueView {
    Bool(bool),
    Number(int),
    Func(TokenView, AstView, Map<Seq<char>, ValueView>),
}

/// The model of a value.
pub open spec fn value_view(v: Value) -> ValueView
    decreases v,
{
    match v {
        Value::Bool(b) => ValueView::Bool(b),
        Value::Number(n) => ValueView::Number(n as int),
        Value::Func(t, body, env) => ValueView::Func(t@, body@, slots_map(env.slots@)),
    }
}

/// The map that a list of slots stands for. Of two slots with one name the
/// later one counts.
pub open spec fn slots_map(slots: Seq<Slot>) -> Map<Seq<char>, ValueView>
    decreases slots,
{
    if slots.len() == 0 {
        Map::empty()
    } else {
        slots_map(slots.drop_last()).insert(slots.last().name@, value_view(slots.last().value))
    }
}

impl View for Value {
    type V = ValueView;

    open spec fn view(&self) -> ValueView {
        value_view(*self)
    }
}

impl View for Environment {
    type V = Map<Seq<char>, ValueView>;

    open spec fn view(&self) -> Map<Seq<char>, ValueView> {
        slots_map(self.slots@)
    }
}

/// Why an evaluation stopped without a value. The type checker rules all
/// of these out but the last two.
#[derive(PartialEq, Eq, Structural, Clone, Copy, Debug)]
pub enum RuntimeError {
    /// The expression holds what the parser could not read.
    IllFormed,
    /// A literal node whose token is no literal.
    UnhandledLiteral,
    /// A name without a value.
    UnboundName,
    /// An operand of `+` or `-` is no number.
    NotANumber,
    /// An operator node whose token is neither `+` nor `-`.
    UnhandledOperator,
    /// What is applied is no function.
    NotAFunction,
    /// A number outside the range of `i64`.
    Overflow,
    /// Function calls nested deeper than the limit.
    OutOfFuel,
}

/// The sum or difference of two values, as the operator `op` asks.
pub open spec fn arithmetic_spec(op: TokenKindView, left: ValueView, right: ValueView) -> Result<
    ValueView,
    RuntimeError,
> {
    match op {
        TokenKindView::Plus | TokenKindView::Minus => match (left, right) {
            (ValueView::Number(a), ValueView::Number(b)) => {
                let n = if op is Plus {
                    a + b
                } else {
                    a - b
                };
                if i64::MIN <= n <= i64::MAX {
                    Ok(ValueView::Number(n))
                } else {
                    Err(RuntimeError::Overflow)
                }
            },
            _ => Err(RuntimeError::NotANumber),
        },
        _ => Err(RuntimeError::UnhandledOperator),
    }
}

/// The value of the expression `e` in the environment `env`. Evaluation is
/// strict and goes from left to right. A function value keeps the
/// environment in which it was made; `fuel` bounds how deep calls may nest.
pub open spec fn eval_spec(e: AstView, env: Map<Seq<char>, ValueView>, fuel: nat) -> Result<
    ValueView,
    RuntimeError,
>
    decreases fuel, e.size(),
{
    match e {
        AstView::Error => Err(RuntimeError::IllFormed),
        AstView::Expr(inner) => eval_spec(*inner, env, fuel),
        AstView::Literal(t) => match t.kind {
            TokenKindView::LiteralInt(n) => if n <= i64::MAX {
                Ok(ValueView::Number(n as int))
            } else {
                Err(RuntimeError::Overflow)
            },
            TokenKindView::LiteralBool(b) => Ok(ValueView::Bool(b)),
            _ => Err(RuntimeError::UnhandledLiteral),
        },
        AstView::Name(t) => if env.dom().contains(t.text()) {
            Ok(env[t.text()])
        } else {
            Err(RuntimeError::UnboundName)
        },
        AstView::Let(t, bound, body) => match eval_spec(*bound, env, fuel) {
            Err(err) => Err(err),
            Ok(v) => eval_spec(*body, env.insert(t.text(), v), fuel),
        },
        AstView::BinaryOp(op, l, r) => match eval_spec(*l, env, fuel) {
            Err(err) => Err(err),
            Ok(left) => match eval_spec(*r, env, fuel) {
                Err(err) => Err(err),
                Ok(right) => arithmetic_spec(op.kind, left, right),
            },
        },
        AstView::Abstraction(t, body) => Ok(ValueView::Func(t, *body, env)),
        AstView::Application(f, a) => match eval_spec(*f, env, fuel) {
            Err(err) => Err(err),
            Ok(ValueView::Func(param, body, captured)) => match eval_spec(*a, env, fuel) {
                Err(err) => Err(err),
                Ok(arg) => if fuel == 0 {
                    Err(RuntimeError::OutOfFuel)
                } else {
                    eval_spec(body, captured.insert(param.text(), arg), (fuel - 1) as nat)
                },
            },
            Ok(_) => Err(RuntimeError::NotAFunction),
        },
    }
}

impl ValueView {
    /// How a value is shown.
    pub open spec fn text(self) -> Seq<char> {
        match self {
            ValueView::Bool(b) => if b {
                "true"@
            } else {
                "false"@
            },
            ValueView::Number(n) => if n < 0 {
                "-"@ + decimal((-n) as nat)
            } else {
                decimal(n as nat)
            },
            ValueView::Func(_, _, _) => "func"@,
        }
    }
}

impl Clone for Value {
    #[verifier::loop_isolation(false)]
    fn clone(&self) -> (r: Self)
        ensures
            r@ == self@,
        decreases self,
    {
        match self {
            Value::Bool(b) => Value::Bool(*b),
            Value::Number(n) => Value::Number(*n),
            Value::Func(t, body, env) => {
                let mut slots: Vec<Slot> = Vec::new();
                let mut i: usize = 0;
                while i < env.slots.len()
                    invariant
                        i <= env.slots.len(),
                        slots.len() == i,
                        forall|j: int|
                            0 <= j < i ==> slots@[j].name@ == env.slots@[j].name@ && slots@[j].value@
                                == env.slots@[j].value@,
                    decreases env.slots.len() - i,
                {
                    slots.push(
                        Slot {
                            name: env.slots[i].name.clone(),
                            value: env.slots[i].value.clone(),
                        },
                    );
                    i += 1;
                }
                proof {
                    lemma_same_slots(slots@, env.slots@);
                }
                Value::Func(t.clone(), body.clone(), Environment { slots })
            },
        }
    }
}

/// Lists with the same names and values, slot by slot, stand for one map.
pub proof fn lemma_same_slots(a: Seq<Slot>, b: Seq<Slot>)
    requires
        a.len() == b.len(),
        forall|j: int| 0 <= j < a.len() ==> a[j].name@ == b[j].name@ && a[j].value@ == b[j].value@,
    ensures
        slots_map(a) == slots_map(b),
    decreases a.len(),
{
    if a.len() > 0 {
        lemma_same_slots(a.drop_last(), b.drop_last());
    }
}

/// Index of the last slot with the name `k`, or -1 where there is none.
pub open spec fn last_slot(slots: Seq<Slot>, k: Seq<char>) -> int
    decreases slots.len(),
{
    if slots.len() == 0 {
        -1
    } else if slots.last().name@ == k {
        slots.len() - 1
    } else {
        last_slot(slots.drop_last(), k)
    }
}

/// The map of a list of slots holds, for each name, the last slot with that
/// name.
pub proof fn lemma_slots_map(slots: Seq<Slot>, k: Seq<char>)
    ensures
        -1 <= last_slot(slots, k) < slots.len(),
        slots_map(slots).dom().contains(k) <==> last_slot(slots, k) >= 0,
        last_slot(slots, k) >= 0 ==> slots_map(slots)[k] == slots[last_slot(slots, k)].value@,
    decreases slots.len(),
{
    if slots.len() > 0 {
        lemma_slots_map(slots.drop_last(), k);
    }
}

impl Clone for Environment {
    fn clone(&self) -> (r: Self)
        ensures
            r@ == self@,
    {
        let mut slots: Vec<Slot> = Vec::new();
        let mut i: usize = 0;
        while i < self.slots.len()
            invariant
                i <= self.slots.len(),
                slots.len() == i,
                forall|j: int|
                    0 <= j < i ==> slots@[j].name@ == self.slots@[j].name@ && slots@[j].value@
                        == self.slots@[j].value@,
            decreases self.slots.len() - i,
        {
            slots.push(
                Slot { name: self.slots[i].name.clone(), value: self.slots[i].value.clone() },
            );
            i += 1;
        }
        proof {
            lemma_same_slots(slots@, self.slots@);
        }
        Environment { slots }
    }
}

impl Environment {
    /// The environment without any name.
    pub fn new() -> (env: Self)
        ensures
            env@ == Map::<Seq<char>, ValueView>::empty(),
    {
        Environment { slots: Vec::new() }
    }

    /// The value of the name `k`.
    pub fn get(&self, k: &str) -> (r: Option<&Value>)
        ensures
            match r {
                Some(v) => self@.dom().contains(k@) && v@ == self@[k@],
                None => !self@.dom().contains(k@),
            },
    {
        let mut i: usize = self.slots.len();
        proof {
            lemma_slots_map(self.slots@, k@);
            assert(self.slots@.take(i as int) == self.slots@);
        }
        while i > 0
            invariant
                i <= self.slots.len(),
                last_slot(self.slots@, k@) == last_slot(self.slots@.take(i as int), k@),
            decreases i,
        {
            proof {
                assert(self.slots@.take(i as int).drop_last() == self.slots@.take(i - 1));
                assert(self.slots@.take(i as int).last() == self.slots@[i - 1]);
            }
            i -= 1;
            if str_eq(self.slots[i].name.as_str(), k) {
                proof {
                    lemma_slots_map(self.slots@, k@);
                }
                return Some(&self.slots[i].value);
            }
        }
        proof {
            lemma_slots_map(self.slots@, k@);
        }
        None
    }

    /// Gives the name `k` the value `v`.
    pub fn insert(&mut self, k: String, v: Value)
        ensures
            final(self)@ == old(self)@.insert(k@, v@),
    {
        let ghost before = self.slots@;
        self.slots.push(Slot { name: k, value: v });
        proof {
            assert(self.slots@.drop_last() == before);
        }
    }
}

impl Value {
    /// The value as text.
    pub fn text(&self) -> (s: String)
        ensures
            s@ == self@.text(),
    {
        match self {
            Value::Bool(b) => if *b {
                String::from_str("true")
            } else {
                String::from_str("false")
            },
            Value::Number(n) => if *n < 0 {
                let mut s = String::from_str("-");
                let magnitude: u64 = if *n == i64::MIN {
                    9223372036854775808u64
                } else {
                    (-*n) as u64
                };
                s.append(decimal_string(magnitude as u128).as_str());
                s
            } else {
                decimal_string(*n as u128)
            },
            Value::Func(_, _, _) => String::from_str("func"),
        }
    }
}

/// The sum or difference of two values, as the operator `op` asks.
pub fn arithmetic(op: &TokenKind, left: &Value, right: &Value) -> (r: Result<Value, RuntimeError>)
    ensures
        match arithmetic_spec(op@, left@, right@) {
            Ok(v) => r is Ok && r->Ok_0@ == v,
            Err(err) => r == Err::<Value, RuntimeError>(err),
        },
{
    let plus = match op {
        TokenKind::Plus => true,
        TokenKind::Minus => false,
        _ => {
            return Err(RuntimeError::UnhandledOperator);
        },
    };
    match (left, right) {
        (Value::Number(a), Value::Number(b)) => {
            let n = if plus {
                a.checked_add(*b)
            } else {
                a.checked_sub(*b)
            };
            match n {
                Some(n) => Ok(Value::Number(n)),
                None => Err(RuntimeError::Overflow),
            }
        },
        _ => Err(RuntimeError::NotANumber),
    }
}

/// The interpreter of a checked program.
pub struct Interpreter {
    /// The diagnostics so far.
    pub errors: Vec<Message>,
    /// How deep function calls may nest.
    pub fuel: u64,
}

impl Interpreter {
    /// An interpreter without diagnostics, with room for ten thousand nested calls.
    pub fn new() -> (interpreter: Self)
        ensures
            interpreter.errors@.len() == 0,
            interpreter.fuel == 10000,
    {
        Self { errors: Vec::new(), fuel: 10000 }
    }

    /// The value of `ast` in `environment`, with calls nested at most `fuel` deep.
    pub fn interpret(&self, ast: &Ast, environment: &Environment, fuel: u64) -> (r: Result<
        Value,
        RuntimeError,
    >)
        ensures
            match eval_spec(ast@, environment@, fuel as nat) {
                Ok(v) => r is Ok && r->Ok_0@ == v,
                Err(err) => r == Err::<Value, RuntimeError>(err),
            },
        decreases fuel, ast@.size(),
    {
        match ast {
            Ast::Error => Err(RuntimeError::IllFormed),
            Ast::Expr(e) => self.interpret(e, environment, fuel),
            Ast::Literal(t) => match t.kind {
                TokenKind::LiteralInt(v) => if v <= i64::MAX as u64 {
                    Ok(Value::Number(v as i64))
                } else {
                    Err(RuntimeError::Overflow)
                },
                TokenKind::LiteralBool(v) => Ok(Value::Bool(v)),
                _ => Err(RuntimeError::UnhandledLiteral),
            },
            Ast::Name(t) => match environment.get(t.text().as_str()) {
                Some(v) => Ok(v.clone()),
                None => Err(RuntimeError::UnboundName),
            },
            Ast::Let(t, e1, e2) => {
                let r1 = match self.interpret(e1, environment, fuel) {
                    Ok(v) => v,
                    Err(err) => {
                        return Err(err);
                    },
                };
                let mut inner = environment.clone();
                inner.insert(t.text(), r1);
                self.interpret(e2, &inner, fuel)
            },
            Ast::BinaryOp(t, e1, e2) => {
                let r1 = match self.interpret(e1, environment, fuel) {
                    Ok(v) => v,
                    Err(err) => {
                        return Err(err);
                    },
                };
                let r2 = match self.interpret(e2, environment, fuel) {
                    Ok(v) => v,
                    Err(err) => {
                        return Err(err);
                    },
                };
                arithmetic(&t.kind, &r1, &r2)
            },
            Ast::Abstraction(t, e) => Ok(Value::Func(t.clone(), (**e).clone(), environment.clone())),
            Ast::Application(e1, e2) => {
                let f = match self.interpret(e1, environment, fuel) {
                    Ok(v) => v,
                    Err(err) => {
                        return Err(err);
                    },
                };
                match f {
                    Value::Func(param, body, captured) => {
                        let v2 = match self.interpret(e2, environment, fuel) {
                            Ok(v) => v,
                            Err(err) => {
                                return Err(err);
                            },
                        };
                        if fuel == 0 {
                            return Err(RuntimeError::OutOfFuel);
                        }
                        let mut inner = captured;
                        inner.insert(param.text(), v2);
                        self.interpret(&body, &inner, fuel - 1)
                    },
                    _ => Err(RuntimeError::NotAFunction),
                }
            },
        }
    }
}

/// What the interpreter reads: paths with their expressions.
pub type Input = crate::phase::ast_builder::Output;

/// What the interpreter makes of them: the value of the program.
pub type Output = Value;

/// The expression of the source `./main.sfl`, where the program begins.
pub open spec fn entry_point(input: Seq<(String, Ast)>) -> Option<AstView>
    decreases input.len(),
{
    if input.len() == 0 {
        None
    } else if input.first().0@ == "./main.sfl"@ {
        Some(input.first().1@)
    } else {
        entry_point(input.drop_first())
    }
}

impl RuntimeError {
    /// What is reported for the error.
    pub open spec fn spec_text(self) -> Seq<char> {
        match self {
            RuntimeError::IllFormed => "the program is not well formed"@,
            RuntimeError::UnhandledLiteral => "unhandled literal"@,
            RuntimeError::UnboundName => "unknown name"@,
            RuntimeError::NotANumber => "an operand is not a number"@,
            RuntimeError::UnhandledOperator => "unhandled binary operator"@,
            RuntimeError::NotAFunction => "cannot apply what is not a function"@,
            RuntimeError::Overflow => "number out of range"@,
            RuntimeError::OutOfFuel => "calls are nested too deep"@,
        }
    }

    /// What is reported for the error.
    pub fn text(self) -> (s: &'static str)
        ensures
            s@ == self.spec_text(),
    {
        match self {
            RuntimeError::IllFormed => "the program is not well formed",
            RuntimeError::UnhandledLiteral => "unhandled literal",
            RuntimeError::UnboundName => "unknown name",
            RuntimeError::NotANumber => "an operand is not a number",
            RuntimeError::UnhandledOperator => "unhandled binary operator",
            RuntimeError::NotAFunction => "cannot apply what is not a function",
            RuntimeError::Overflow => "number out of range",
            RuntimeError::OutOfFuel => "calls are nested too deep",
        }
    }
}

/// The diagnostic for an evaluation that stopped without a value.
pub open spec fn runtime_message(message: Seq<char>, position: Position) -> MessageView {
    MessageView {
        severity: Severity::Error,
        position,
        content: ContentView { message, indicator_message: None, fix_hint: None },
        source_path: "./main.sfl"@,
    }
}

/// What running a program gives: its value, or the one diagnostic that
/// says why there is none.
pub open spec fn run_spec(input: Seq<(String, Ast)>, fuel: nat) -> Result<ValueView, MessageView> {
    match entry_point(input) {
        None => Err(
            runtime_message(
                "no './main.sfl' among the sources"@,
                Position { line: 0, column: 0, begin: 0, end: 0 },
            ),
        ),
        Some(ast) => match eval_spec(ast, Map::empty(), fuel) {
            Ok(v) => Ok(v),
            Err(e) => Err(runtime_message(e.spec_text(), ast.position())),
        },
    }
}

fn find_entry(input: &Input) -> (r: Option<usize>)
    ensures
        match r {
            Some(i) => i < input.len() && entry_point(input@) == Some(input@[i as int].1@),
            None => entry_point(input@) is None,
        },
{
    let mut i: usize = 0;
    assert(input@.skip(0) =~= input@);
    while i < input.len()
        invariant
            i <= input.len(),
            entry_point(input@) == entry_point(input@.skip(i as int)),
        decreases input.len() - i,
    {
        proof {
            assert(input@.skip(i as int).drop_first() =~= input@.skip(i + 1));
            assert(input@.skip(i as int).first() == input@[i as int]);
        }
        if str_eq(input[i].0.as_str(), "./main.sfl") {
            return Some(i);
        }
        i += 1;
    }
    None
}

fn failure(message: &str, position: Position) -> (r: PhaseResult<Output>)
    ensures
        r is Failure,
        r.errors() == seq![runtime_message(message@, position)],
{
    let mut errors: Vec<Message> = Vec::new();
    assert(message_views(errors@) =~= Seq::<MessageView>::empty());
    push_message(
        &mut errors,
        Message {
            severity: Severity::Error,
            position,
            content: Content {
                message: String::from_str(message),
                indicator_message: None,
                fix_hint: None,
            },
            source_path: String::from_str("./main.sfl"),
        },
    );
    assert(message_views(errors@) =~= seq![runtime_message(message@, position)]);
    PhaseResult::Failure(errors)
}

impl Phase<Input, Output> for Interpreter {
    /// A fresh interpreter has no diagnostic so far, and room for ten
    /// thousand nested calls.
    open spec fn fresh(&self) -> bool {
        &&& self.errors@ == Seq::<Message>::empty()
        &&& self.fuel == 10000
    }

    /// An interpreter without diagnostics.
    fn new() -> Self {
        let interpreter = Interpreter::new();
        assert(interpreter.errors@ =~= Seq::<Message>::empty());
        interpreter
    }

    /// Evaluates the expression of `./main.sfl` in the empty environment.
    /// The phase fails where there is no such source, and where the
    /// evaluation stops without a value.
    fn run(&mut self, _config: &Config, input: &Input) -> (r: PhaseResult<Output>)
        ensures
            *final(self) == *old(self),
            match run_spec(input@, old(self).fuel as nat) {
                Ok(v) => r is Success && r.output()->Some_0@ == v,
                Err(m) => r is Failure && r.errors() == seq![m],
            },
    {
        match find_entry(input) {
            None => failure(
                "no './main.sfl' among the sources",
                Position { line: 0, column: 0, begin: 0, end: 0 },
            ),
            Some(i) => match self.interpret(&input[i].1, &Environment::new(), self.fuel) {
                Ok(v) => PhaseResult::Success(v),
                Err(e) => failure(e.text(), input[i].1.position()),
            },
        }
    }
}

} // verus!
