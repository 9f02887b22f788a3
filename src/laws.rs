use vstd::prelude::*;
use crate::ast::{NodeModel, StatementModel};
use crate::codegen::{
    Instr,
    assigned_names,
    code_upto,
    names_upto,
    decimal,
    digit_char_of,
    digits_of,
    node_code,
    program_code,
    program_text,
    statement_code,
};
use crate::compiler::{CompileErrorModel, compile_spec};
use crate::machine::{binary_result, evaluate, run, step, wrap_i32};
use crate::parser::{
    ParseErrorModel,
    add_sub_rest,
    assign_spec,
    expression_spec,
    mul_div_rest,
    mul_div_spec,
    primary_spec,
    program_spec,
    statement_spec,
    statements_from,
};
use crate::tokenizer::{
    LexError,
    Token,
    TokenModel,
    digit_run_end,
    digit_value,
    digits_value,
    is_digit,
    lemma_digit_run_ends_at,
    lex,
    lex_result_model,
    lex_from,
    prefix_tokens,
    symbol_token,
    classes_of,
};

verus! {

/// Each character of `digits_of(n)` is a digit, and their value is `n`.
proof fn lemma_digits_of(n: nat)
    ensures
        digits_of(n).len() >= 1,
        forall|k: int| 0 <= k < digits_of(n).len() ==> is_digit(#[trigger] digits_of(n)[k]),
        digits_value(digits_of(n)) == n,
    decreases n,
{
    let c = digit_char_of(n % 10);
    assert(is_digit(c) && digit_value(c) == n % 10);
    if n < 10 {
        assert(digits_of(n).drop_last() =~= Seq::<char>::empty());
        assert(digits_value(Seq::<char>::empty()) == 0);
    } else {
        assert(n == (n / 10) * 10 + n % 10);
        lemma_digits_of(n / 10);
        let d = digits_of(n);
        assert(d.drop_last() =~= digits_of(n / 10));
        assert(d.last() == digit_char_of(n % 10));
        assert forall|k: int| 0 <= k < d.len() implies is_digit(#[trigger] d[k]) by {
            if k < d.len() - 1 {
                assert(d[k] == digits_of(n / 10)[k]);
            }
        }
    }
}

/// The literal `digits_of(n)` at position `i` of `s`, followed by no digit,
/// is read as one integer token.
proof fn lemma_lex_literal(s: Seq<char>, i: int, n: nat)
    requires
        0 <= i,
        n <= i32::MAX,
        i + digits_of(n).len() <= s.len(),
        s.subrange(i, i + digits_of(n).len()) == digits_of(n),
        i + digits_of(n).len() == s.len() || !is_digit(s[i + digits_of(n).len()]),
    ensures
        lex_from(s, classes_of(s), i) == prefix_tokens(
            seq![TokenModel::Int(n as i32)],
            lex_from(s, classes_of(s), i + digits_of(n).len()),
        ),
{
    let d = digits_of(n);
    let e = i + d.len();
    lemma_digits_of(n);
    assert(s[i] == d[0]);
    assert(!classes_of(s)[i].space);
    assert forall|k: int| i <= k < e implies is_digit(#[trigger] s[k]) by {
        assert(s[k] == d[k - i]);
    }
    lemma_digit_run_ends_at(s, i, e);
    assert(digit_run_end(s, e) == e);
    assert(symbol_token(s[i]) is None);
}

/// The single-character token of an operator.
pub open spec fn operator_token(op: char) -> TokenModel {
    if op == '+' {
        TokenModel::Add
    } else if op == '-' {
        TokenModel::Sub
    } else if op == '*' {
        TokenModel::Mul
    } else {
        TokenModel::Div
    }
}

/// The tree of `a op b` for one of the four operators.
pub open spec fn operation(op: char, a: i32, b: i32) -> NodeModel {
    let l = Box::new(NodeModel::Number(a));
    let r = Box::new(NodeModel::Number(b));
    if op == '+' {
        NodeModel::Add(l, r)
    } else if op == '-' {
        NodeModel::Sub(l, r)
    } else if op == '*' {
        NodeModel::Mul(l, r)
    } else {
        NodeModel::Div(l, r)
    }
}

/// The instruction of one of the four operators.
pub open spec fn operator_instr(op: char) -> Instr {
    if op == '+' {
        Instr::Add
    } else if op == '-' {
        Instr::Sub
    } else if op == '*' {
        Instr::Mul
    } else {
        Instr::DivS
    }
}

proof fn lemma_lex_operation(a: i32, b: i32, op: char)
    requires
        0 <= a,
        0 <= b,
        op == '+' || op == '-' || op == '*' || op == '/',
    ensures
        lex(decimal(a as int) + seq![op] + decimal(b as int)) == Ok::<Seq<TokenModel>, LexError>(
            seq![TokenModel::Int(a), operator_token(op), TokenModel::Int(b)],
        ),
{
    let da = digits_of(a as nat);
    let db = digits_of(b as nat);
    let s = da + seq![op] + db;
    let cls = classes_of(s);
    let la = da.len() as int;
    assert(decimal(a as int) + seq![op] + decimal(b as int) == s);
    lemma_digits_of(a as nat);
    lemma_digits_of(b as nat);
    assert(s.subrange(0, la) =~= da);
    assert(s[la] == op);
    lemma_lex_literal(s, 0, a as nat);
    assert(symbol_token(op) == Some(operator_token(op)));
    assert(!cls[la].space);
    assert(lex_from(s, cls, la) == prefix_tokens(
        seq![operator_token(op)],
        lex_from(s, cls, la + 1),
    ));
    assert(s.subrange(la + 1, s.len() as int) =~= db);
    lemma_lex_literal(s, la + 1, b as nat);
    assert(lex_from(s, cls, s.len() as int) == Ok::<Seq<TokenModel>, LexError>(seq![]));
    assert(seq![TokenModel::Int(a)] + (seq![operator_token(op)] + (seq![TokenModel::Int(b)]
        + seq![])) =~= seq![TokenModel::Int(a), operator_token(op), TokenModel::Int(b)]);
}

proof fn lemma_parse_operation(a: i32, b: i32, op: char)
    requires
        op == '+' || op == '-' || op == '*' || op == '/',
    ensures
        program_spec(seq![TokenModel::Int(a), operator_token(op), TokenModel::Int(b)]) == Ok::<_, ParseErrorModel>(seq![StatementModel::Node(operation(op, a, b))]),
{
    let t = seq![TokenModel::Int(a), operator_token(op), TokenModel::Int(b)];
    let na = NodeModel::Number(a);
    let nb = NodeModel::Number(b);
    let e = operation(op, a, b);
    assert(primary_spec(t, 0) == Ok::<_, ParseErrorModel>((na, 1int)));
    assert(primary_spec(t, 2) == Ok::<_, ParseErrorModel>((nb, 3int)));
    if op == '*' || op == '/' {
        assert(mul_div_rest(t, 3, e) == Ok::<_, ParseErrorModel>((e, 3int)));
        assert(mul_div_rest(t, 1, na) == Ok::<_, ParseErrorModel>((e, 3int)));
        assert(mul_div_spec(t, 0) == Ok::<_, ParseErrorModel>((e, 3int)));
        assert(add_sub_rest(t, 3, e) == Ok::<_, ParseErrorModel>((e, 3int)));
    } else {
        assert(mul_div_rest(t, 1, na) == Ok::<_, ParseErrorModel>((na, 1int)));
        assert(mul_div_spec(t, 0) == Ok::<_, ParseErrorModel>((na, 1int)));
        assert(mul_div_rest(t, 3, nb) == Ok::<_, ParseErrorModel>((nb, 3int)));
        assert(mul_div_spec(t, 2) == Ok::<_, ParseErrorModel>((nb, 3int)));
        assert(add_sub_rest(t, 3, e) == Ok::<_, ParseErrorModel>((e, 3int)));
        assert(add_sub_rest(t, 1, na) == Ok::<_, ParseErrorModel>((e, 3int)));
    }
    assert(expression_spec(t, 0) == Ok::<_, ParseErrorModel>((e, 3int)));
    let st = StatementModel::Node(e);
    assert(assign_spec(t, 0) == Ok::<_, ParseErrorModel>((st, 3int)));
    assert(statement_spec(t, 0) == Ok::<_, ParseErrorModel>((st, 3int)));
    assert(statements_from(t, 3) == Ok::<_, ParseErrorModel>(
        Seq::<StatementModel>::empty(),
    ));
    assert(seq![st] + Seq::<StatementModel>::empty() =~= seq![st]);
}

proof fn lemma_evaluate_operation(a: i32, b: i32, op: char)
    requires
        op == '+' || op == '-' || op == '*' || op == '/',
    ensures
        evaluate(seq![StatementModel::Node(operation(op, a, b))]) == binary_result(
            operator_instr(op),
            a,
            b,
        ),
{
    let ss = seq![StatementModel::Node(operation(op, a, b))];
    let code = seq![Instr::Const(a), Instr::Const(b), operator_instr(op)];
    assert(node_code(NodeModel::Number(a)) == seq![Instr::Const(a)]);
    assert(node_code(NodeModel::Number(b)) == seq![Instr::Const(b)]);
    assert(node_code(operation(op, a, b)) =~= code);
    assert(statement_code(ss[0], true) == code);
    assert(code_upto(ss, 0) == Seq::<Instr>::empty());
    assert(code_upto(ss, 1) =~= code);
    assert(program_code(ss) == code);
    let locals = Map::new(|x: Seq<char>| assigned_names(ss).contains(x), |x: Seq<char>| 0i32);
    let s0 = (Seq::<i32>::empty(), locals);
    let s1 = (seq![a], locals);
    let s2 = (seq![a, b], locals);
    assert(step(Instr::Const(a), s0) == Some(s1)) by {
        assert(Seq::<i32>::empty().push(a) =~= seq![a]);
    }
    assert(step(Instr::Const(b), s1) == Some(s2)) by {
        assert(seq![a].push(b) =~= seq![a, b]);
    }
    assert(code.drop_first() =~= seq![Instr::Const(b), operator_instr(op)]);
    assert(code.drop_first().drop_first() =~= seq![operator_instr(op)]);
    assert(seq![operator_instr(op)].drop_first() =~= Seq::<Instr>::empty());
    assert(seq![a, b].subrange(0, 0) =~= Seq::<i32>::empty());
    match binary_result(operator_instr(op), a, b) {
        Some(v) => {
            assert(Seq::<i32>::empty().push(v) =~= seq![v]);
            assert(step(operator_instr(op), s2) == Some((seq![v], locals)));
            assert(run(Seq::<Instr>::empty(), (seq![v], locals)) == Some((seq![v], locals)));
            assert(run(seq![operator_instr(op)], s2) == Some((seq![v], locals)));
        },
        None => {
            assert(step(operator_instr(op), s2) is None);
        },
    }
    assert(run(code.drop_first(), s1) == run(seq![operator_instr(op)], s2));
    assert(run(code, s0) == run(seq![operator_instr(op)], s2));
}

/// Compiling two literals `a` and `b` joined by one of `+ - * /` gives the
/// text of the program of the single statement `a op b`, and that program
/// returns `a + b`, `a - b` and `a * b` in 32-bit wrapping arithmetic, and
/// `a / b` where `b` is not zero. Literals are written without a sign, so
/// `a` and `b` are not negative.
pub proof fn law_binary_operation(a: i32, b: i32, op: char)
    requires
        0 <= a,
        0 <= b,
        op == '+' || op == '-' || op == '*' || op == '/',
        op == '/' ==> b != 0,
    ensures
        compile_spec(decimal(a as int) + seq![op] + decimal(b as int)) == Ok::<_, CompileErrorModel>(
            program_text(seq![StatementModel::Node(operation(op, a, b))]),
        ),
        op == '+' ==> evaluate(seq![StatementModel::Node(operation(op, a, b))]) == Some(
            wrap_i32(a + b) as i32,
        ),
        op == '-' ==> evaluate(seq![StatementModel::Node(operation(op, a, b))]) == Some(
            (a - b) as i32,
        ),
        op == '*' ==> evaluate(seq![StatementModel::Node(operation(op, a, b))]) == Some(
            wrap_i32(a * b) as i32,
        ),
        op == '/' ==> evaluate(seq![StatementModel::Node(operation(op, a, b))]) == Some(
            (a / b) as i32,
        ),
{
    lemma_lex_operation(a, b, op);
    lemma_parse_operation(a, b, op);
    lemma_evaluate_operation(a, b, op);
    if op == '-' {
        assert(wrap_i32(a - b) == a - b);
    }
}

/// The number of `Drop` instructions in `is`.
pub open spec fn drop_count(is: Seq<Instr>) -> nat
    decreases is.len(),
{
    if is.len() == 0 {
        0
    } else {
        drop_count(is.drop_last()) + if is.last() is Drop {
            1nat
        } else {
            0nat
        }
    }
}

proof fn lemma_drop_count_concat(a: Seq<Instr>, b: Seq<Instr>)
    ensures
        drop_count(a + b) == drop_count(a) + drop_count(b),
    decreases b.len(),
{
    if b.len() == 0 {
        assert(a + b =~= a);
    } else {
        assert((a + b).drop_last() =~= a + b.drop_last());
        lemma_drop_count_concat(a, b.drop_last());
    }
}

proof fn lemma_node_code_drops_nothing(n: NodeModel)
    ensures
        drop_count(node_code(n)) == 0,
    decreases n,
{
    assert(drop_count(Seq::<Instr>::empty()) == 0);
    match n {
        NodeModel::Number(v) => {
            assert(seq![Instr::Const(v)].drop_last() =~= Seq::<Instr>::empty());
        },
        NodeModel::Variable(x) => {
            assert(seq![Instr::LocalGet(x)].drop_last() =~= Seq::<Instr>::empty());
        },
        NodeModel::Add(l, r) => {
            lemma_node_code_drops_nothing(*l);
            lemma_node_code_drops_nothing(*r);
            lemma_binary_drops_nothing(node_code(*l), node_code(*r), Instr::Add);
        },
        NodeModel::Sub(l, r) => {
            lemma_node_code_drops_nothing(*l);
            lemma_node_code_drops_nothing(*r);
            lemma_binary_drops_nothing(node_code(*l), node_code(*r), Instr::Sub);
        },
        NodeModel::Mul(l, r) => {
            lemma_node_code_drops_nothing(*l);
            lemma_node_code_drops_nothing(*r);
            lemma_binary_drops_nothing(node_code(*l), node_code(*r), Instr::Mul);
        },
        NodeModel::Div(l, r) => {
            lemma_node_code_drops_nothing(*l);
            lemma_node_code_drops_nothing(*r);
            lemma_binary_drops_nothing(node_code(*l), node_code(*r), Instr::DivS);
        },
    }
}

proof fn lemma_binary_drops_nothing(a: Seq<Instr>, b: Seq<Instr>, op: Instr)
    requires
        !(op is Drop),
        drop_count(a) == 0,
        drop_count(b) == 0,
    ensures
        drop_count(a + b + seq![op]) == 0,
{
    lemma_drop_count_concat(a, b);
    lemma_drop_count_concat(a + b, seq![op]);
    assert(seq![op].drop_last() =~= Seq::<Instr>::empty());
    assert(drop_count(Seq::<Instr>::empty()) == 0);
}

/// A program of one or more bare expressions discards the value of every
/// statement but the last: its code holds one `Drop` fewer than it has
/// statements.
pub proof fn law_bare_expressions_drop_all_but_last(ss: Seq<StatementModel>)
    requires
        ss.len() >= 1,
        forall|i: int| 0 <= i < ss.len() ==> #[trigger] ss[i] is Node,
    ensures
        drop_count(program_code(ss)) == ss.len() - 1,
{
    assert forall|k: int| 0 <= k <= ss.len() implies #[trigger] drop_count(code_upto(ss, k)) == if k
        == ss.len() {
        k - 1
    } else {
        k
    } by {
        lemma_drops_upto(ss, k);
    }
}

proof fn lemma_drops_upto(ss: Seq<StatementModel>, k: int)
    requires
        0 <= k <= ss.len(),
        forall|i: int| 0 <= i < ss.len() ==> #[trigger] ss[i] is Node,
    ensures
        drop_count(code_upto(ss, k)) == if k == ss.len() && k > 0 {
            k - 1
        } else {
            k
        },
    decreases k,
{
    if k > 0 {
        lemma_drops_upto(ss, k - 1);
        let last = k == ss.len();
        let n = ss[k - 1]->Node_0;
        lemma_node_code_drops_nothing(n);
        lemma_drop_count_concat(code_upto(ss, k - 1), statement_code(ss[k - 1], last));
        if !last {
            assert(node_code(n).push(Instr::Drop).drop_last() =~= node_code(n));
        }
    }
}

/// Whether statement `i` of `ss` assigns to `x`.
pub open spec fn assigns_to(ss: Seq<StatementModel>, i: int, x: Seq<char>) -> bool {
    ss[i] matches StatementModel::Assign(y, _) && y == x
}

/// The generated program declares each assigned name once: the names are
/// distinct, and they are exactly the names that some statement assigns.
pub proof fn law_locals_declared_once(ss: Seq<StatementModel>)
    ensures
        assigned_names(ss).no_duplicates(),
        forall|x: Seq<char>|
            assigned_names(ss).contains(x) <==> exists|i: int|
                0 <= i < ss.len() && #[trigger] assigns_to(ss, i, x),
{
    lemma_names_upto(ss, ss.len() as int);
}

proof fn lemma_names_upto(ss: Seq<StatementModel>, k: int)
    requires
        0 <= k <= ss.len(),
    ensures
        names_upto(ss, k).no_duplicates(),
        forall|x: Seq<char>|
            names_upto(ss, k).contains(x) <==> exists|i: int|
                0 <= i < k && #[trigger] assigns_to(ss, i, x),
    decreases k,
{
    if k > 0 {
        lemma_names_upto(ss, k - 1);
        let prev = names_upto(ss, k - 1);
        let cur = names_upto(ss, k);
        match ss[k - 1] {
            StatementModel::Node(_) => {
                assert forall|x: Seq<char>| cur.contains(x) <==> exists|i: int|
                    0 <= i < k && #[trigger] assigns_to(ss, i, x) by {
                    if exists|i: int| 0 <= i < k && #[trigger] assigns_to(ss, i, x) {
                        let i = choose|i: int| 0 <= i < k && #[trigger] assigns_to(ss, i, x);
                        assert(i < k - 1);
                    }
                }
            },
            StatementModel::Assign(y, _) => {
                assert(assigns_to(ss, k - 1, y));
                if prev.contains(y) {
                    assert forall|x: Seq<char>| cur.contains(x) <==> exists|i: int|
                        0 <= i < k && #[trigger] assigns_to(ss, i, x) by {
                        if exists|i: int| 0 <= i < k && #[trigger] assigns_to(ss, i, x) {
                            let i = choose|i: int| 0 <= i < k && #[trigger] assigns_to(ss, i, x);
                            if i == k - 1 {
                                assert(x == y);
                            }
                        }
                    }
                } else {
                    assert(cur == prev.push(y));
                    assert(cur[prev.len() as int] == y);
                    assert forall|x: Seq<char>| cur.contains(x) <==> exists|i: int|
                        0 <= i < k && #[trigger] assigns_to(ss, i, x) by {
                        if cur.contains(x) {
                            let j = choose|j: int| 0 <= j < cur.len() && cur[j] == x;
                            if j < prev.len() {
                                assert(prev[j] == x);
                                assert(prev.contains(x));
                                let i = choose|i: int|
                                    0 <= i < k - 1 && #[trigger] assigns_to(ss, i, x);
                                assert(0 <= i < k && assigns_to(ss, i, x));
                            } else {
                                assert(x == y);
                                assert(assigns_to(ss, k - 1, x));
                            }
                        }
                        if exists|i: int| 0 <= i < k && #[trigger] assigns_to(ss, i, x) {
                            let i = choose|i: int| 0 <= i < k && #[trigger] assigns_to(ss, i, x);
                            if i == k - 1 {
                                assert(x == y);
                            } else {
                                assert(exists|i: int| 0 <= i < k - 1 && #[trigger] assigns_to(ss, i, x));
                                assert(prev.contains(x));
                                let j = choose|j: int| 0 <= j < prev.len() && prev[j] == x;
                                assert(cur[j] == x);
                            }
                        }
                    }
                    assert forall|p: int, q: int|
                        0 <= p < cur.len() && 0 <= q < cur.len() && p != q implies cur[p]
                        != cur[q] by {
                        if p < prev.len() && q < prev.len() {
                            assert(cur[p] == prev[p] && cur[q] == prev[q]);
                        } else if p < prev.len() {
                            assert(cur[p] == prev[p]);
                        } else if q < prev.len() {
                            assert(cur[q] == prev[q]);
                        }
                    }
                }
            },
        }
    }
}

/// Lexing has no hidden state: any two results that `tokenize` may return
/// for texts with the same characters hold the same tokens.
pub proof fn law_lexing_is_deterministic(
    a: Seq<char>,
    b: Seq<char>,
    ra: Result<Vec<Token>, LexError>,
    rb: Result<Vec<Token>, LexError>,
)
    requires
        a == b,
        lex_result_model(ra) == lex(a),
        lex_result_model(rb) == lex(b),
    ensures
        lex_result_model(ra) == lex_result_model(rb),
{
}

} // verus!
