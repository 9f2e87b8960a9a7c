use ail_contract::encode::{
    encode_constraint, encode_value_int, encode_value_real, BoolTerm, CmpOp, EncodeContext,
    EncodeError, IntTerm, RealTerm, VarRef, VarSort,
};
use ail_contract::expr::{ArithOp, CompareOp, ConstraintExpr, LiteralValue, ValueExpr};
use ail_contract::model::{
    AilGraph, ContextPacket, Contract, ContractKind, Field, Node, NodeId, NodeMetadata, Param,
    Pattern, PromotedFact, ScopeVariable, ScopeVariableKind,
};
use ail_contract::obstruction::{
    conclude_overlap, prepare_overlap, ObstructionResult, ObstructionStatus, OverlapAnswer,
    OverlapStep,
};
use ail_contract::plan::{
    format_counterexample, node_step, plan_do_node, query_terms, QueryKind, SolverAnswer,
    VerificationRun, VerifyError,
};
use ail_contract::sheaf::{build_nerve, CechNerve, SheafOverlap, SheafSection};
use ail_contract::sorts::{
    build_encode_context, encode_type_constraint, sort_for_type_ref, BuiltinSemanticType, Z3Sort,
};
use ail_contract::render::constraint_text;
use ail_contract::solve::{analyze_sheaf_obstructions, detect_obstructions, solve, verify_contracts, verify_do_node};
use ail_contract::verified::{conclude_solver_stage, verify, ContractStageError};
use z3::SatResult;

// ─── a small reader for contract texts ──────────────────────────────────────

#[derive(Debug, Clone, PartialEq)]
enum Tok {
    Ident(String),
    Int(i64),
    Dec(i64),
    Str(String),
    Sym(String),
}

fn tokens(s: &str) -> Result<Vec<Tok>, String> {
    let cs: Vec<char> = s.chars().collect();
    let mut i = 0;
    let mut out = Vec::new();
    while i < cs.len() {
        let c = cs[i];
        if c.is_whitespace() {
            i += 1;
        } else if c.is_ascii_digit() {
            let start = i;
            while i < cs.len() && cs[i].is_ascii_digit() {
                i += 1;
            }
            if i + 1 < cs.len() && cs[i] == '.' && cs[i + 1].is_ascii_digit() {
                i += 1;
                while i < cs.len() && cs[i].is_ascii_digit() {
                    i += 1;
                }
                let text: String = cs[start..i].iter().collect();
                let f: f64 = text.parse().map_err(|_| format!("bad number {text}"))?;
                out.push(Tok::Dec((f * 10000.0).round() as i64));
            } else {
                let text: String = cs[start..i].iter().collect();
                out.push(Tok::Int(text.parse().map_err(|_| format!("bad number {text}"))?));
            }
        } else if c.is_alphabetic() || c == '_' {
            let start = i;
            while i < cs.len() && (cs[i].is_alphanumeric() || cs[i] == '_') {
                i += 1;
            }
            out.push(Tok::Ident(cs[start..i].iter().collect()));
        } else if c == '"' {
            let start = i + 1;
            i += 1;
            while i < cs.len() && cs[i] != '"' {
                i += 1;
            }
            if i >= cs.len() {
                return Err("unterminated text".to_string());
            }
            out.push(Tok::Str(cs[start..i].iter().collect()));
            i += 1;
        } else {
            let two: String = cs[i..(i + 2).min(cs.len())].iter().collect();
            if [">=", "<=", "==", "!="].contains(&two.as_str()) {
                out.push(Tok::Sym(two));
                i += 2;
            } else if "<>+-*/%(){},.".contains(c) {
                out.push(Tok::Sym(c.to_string()));
                i += 1;
            } else {
                return Err(format!("unexpected character {c}"));
            }
        }
    }
    Ok(out)
}

struct Reader {
    toks: Vec<Tok>,
    pos: usize,
}

impl Reader {
    fn peek(&self) -> Option<&Tok> {
        self.toks.get(self.pos)
    }
    fn is_word(&self, w: &str) -> bool {
        matches!(self.peek(), Some(Tok::Ident(x)) if x == w)
    }
    fn is_sym(&self, s: &str) -> bool {
        matches!(self.peek(), Some(Tok::Sym(x)) if x == s)
    }
    fn expect_sym(&mut self, s: &str) -> Result<(), String> {
        if self.is_sym(s) {
            self.pos += 1;
            Ok(())
        } else {
            Err(format!("expected {s}"))
        }
    }
    fn ident(&mut self) -> Result<String, String> {
        match self.peek() {
            Some(Tok::Ident(x)) => {
                let x = x.clone();
                self.pos += 1;
                Ok(x)
            }
            _ => Err("expected a name".to_string()),
        }
    }
    fn constraint(&mut self) -> Result<ConstraintExpr, String> {
        let mut items = vec![self.conjunction()?];
        while self.is_word("or") {
            self.pos += 1;
            items.push(self.conjunction()?);
        }
        Ok(if items.len() == 1 { items.pop().unwrap() } else { ConstraintExpr::Or(items) })
    }
    fn conjunction(&mut self) -> Result<ConstraintExpr, String> {
        let mut items = vec![self.negation()?];
        while self.is_word("and") {
            self.pos += 1;
            items.push(self.negation()?);
        }
        Ok(if items.len() == 1 { items.pop().unwrap() } else { ConstraintExpr::And(items) })
    }
    fn negation(&mut self) -> Result<ConstraintExpr, String> {
        if self.is_word("not") {
            self.pos += 1;
            return Ok(ConstraintExpr::Not(Box::new(self.negation()?)));
        }
        if self.is_word("for") {
            self.pos += 1;
            if !self.is_word("all") {
                return Err("expected all".to_string());
            }
            self.pos += 1;
            let variable = self.ident()?;
            if !self.is_word("in") {
                return Err("expected in".to_string());
            }
            self.pos += 1;
            let collection = self.value()?;
            self.expect_sym(",")?;
            let condition = Box::new(self.constraint()?);
            return Ok(ConstraintExpr::ForAll { variable, collection, condition });
        }
        if self.is_word("exists") {
            self.pos += 1;
            let variable = self.ident()?;
            if !self.is_word("in") {
                return Err("expected in".to_string());
            }
            self.pos += 1;
            let collection = self.value()?;
            self.expect_sym(",")?;
            let condition = Box::new(self.constraint()?);
            return Ok(ConstraintExpr::Exists { variable, collection, condition });
        }
        let left = self.value()?;
        let op = match self.peek() {
            Some(Tok::Sym(s)) if s == ">=" => Some(CompareOp::Gte),
            Some(Tok::Sym(s)) if s == "<=" => Some(CompareOp::Lte),
            Some(Tok::Sym(s)) if s == ">" => Some(CompareOp::Gt),
            Some(Tok::Sym(s)) if s == "<" => Some(CompareOp::Lt),
            Some(Tok::Sym(s)) if s == "==" => Some(CompareOp::Eq),
            Some(Tok::Sym(s)) if s == "!=" => Some(CompareOp::Neq),
            Some(Tok::Ident(s)) if s == "is" => Some(CompareOp::Is),
            _ => None,
        };
        if let Some(mut op) = op {
            self.pos += 1;
            if op == CompareOp::Is && self.is_word("not") {
                self.pos += 1;
                op = CompareOp::IsNot;
            }
            let right = self.value()?;
            return Ok(ConstraintExpr::Compare { op, left, right });
        }
        if self.is_word("in") {
            self.pos += 1;
            let collection = self.value()?;
            return Ok(ConstraintExpr::In { value: left, collection });
        }
        if self.is_word("matches") {
            self.pos += 1;
            return match self.peek() {
                Some(Tok::Str(p)) => {
                    let pattern = p.clone();
                    self.pos += 1;
                    Ok(ConstraintExpr::Matches { value: left, pattern })
                }
                _ => Err("expected a pattern".to_string()),
            };
        }
        Err("expected a comparison".to_string())
    }
    fn value(&mut self) -> Result<ValueExpr, String> {
        let mut left = self.term()?;
        loop {
            let op = if self.is_sym("+") {
                ArithOp::Add
            } else if self.is_sym("-") {
                ArithOp::Sub
            } else {
                return Ok(left);
            };
            self.pos += 1;
            let right = self.term()?;
            left = ValueExpr::Arithmetic { op, left: Box::new(left), right: Box::new(right) };
        }
    }
    fn term(&mut self) -> Result<ValueExpr, String> {
        let mut left = self.factor()?;
        loop {
            let op = if self.is_sym("*") {
                ArithOp::Mul
            } else if self.is_sym("/") {
                ArithOp::Div
            } else if self.is_sym("%") {
                ArithOp::Mod
            } else {
                return Ok(left);
            };
            self.pos += 1;
            let right = self.factor()?;
            left = ValueExpr::Arithmetic { op, left: Box::new(left), right: Box::new(right) };
        }
    }
    fn factor(&mut self) -> Result<ValueExpr, String> {
        match self.peek().cloned() {
            Some(Tok::Int(n)) => {
                self.pos += 1;
                Ok(ValueExpr::Literal(LiteralValue::Integer(n)))
            }
            Some(Tok::Dec(n)) => {
                self.pos += 1;
                Ok(ValueExpr::Literal(LiteralValue::Float(n)))
            }
            Some(Tok::Str(t)) => {
                self.pos += 1;
                Ok(ValueExpr::Literal(LiteralValue::Text(t)))
            }
            Some(Tok::Sym(s)) if s == "-" => {
                self.pos += 1;
                match self.peek().cloned() {
                    Some(Tok::Int(n)) => {
                        self.pos += 1;
                        Ok(ValueExpr::Literal(LiteralValue::Integer(-n)))
                    }
                    Some(Tok::Dec(n)) => {
                        self.pos += 1;
                        Ok(ValueExpr::Literal(LiteralValue::Float(-n)))
                    }
                    _ => Err("expected a number".to_string()),
                }
            }
            Some(Tok::Sym(s)) if s == "(" => {
                self.pos += 1;
                let v = self.value()?;
                self.expect_sym(")")?;
                Ok(v)
            }
            Some(Tok::Sym(s)) if s == "{" => {
                self.pos += 1;
                let mut items = Vec::new();
                if !self.is_sym("}") {
                    items.push(self.value()?);
                    while self.is_sym(",") {
                        self.pos += 1;
                        items.push(self.value()?);
                    }
                }
                self.expect_sym("}")?;
                Ok(ValueExpr::SetLiteral(items))
            }
            Some(Tok::Ident(w)) => {
                self.pos += 1;
                match w.as_str() {
                    "true" => return Ok(ValueExpr::Literal(LiteralValue::Bool(true))),
                    "false" => return Ok(ValueExpr::Literal(LiteralValue::Bool(false))),
                    "nothing" => return Ok(ValueExpr::Literal(LiteralValue::Nothing)),
                    _ => {}
                }
                if w == "old" && self.is_sym("(") {
                    self.pos += 1;
                    let inner = self.value()?;
                    self.expect_sym(")")?;
                    return Ok(ValueExpr::Old(Box::new(inner)));
                }
                if self.is_sym("(") {
                    self.pos += 1;
                    let mut args = Vec::new();
                    if !self.is_sym(")") {
                        args.push(self.value()?);
                        while self.is_sym(",") {
                            self.pos += 1;
                            args.push(self.value()?);
                        }
                    }
                    self.expect_sym(")")?;
                    return Ok(ValueExpr::Call { name: w, args });
                }
                let mut path = vec![w];
                while self.is_sym(".") {
                    self.pos += 1;
                    path.push(self.ident()?);
                }
                Ok(ValueExpr::Ref(path))
            }
            _ => Err("expected a value".to_string()),
        }
    }
}

fn parse(s: &str) -> Result<ConstraintExpr, String> {
    let toks = tokens(s)?;
    let mut r = Reader { toks, pos: 0 };
    let c = r.constraint()?;
    if r.pos != r.toks.len() {
        return Err(format!("unexpected trailing input in `{s}`"));
    }
    Ok(c)
}

// ─── graph helpers ──────────────────────────────────────────────────────────

fn param(name: &str, type_ref: &str) -> Param {
    Param { name: name.to_owned(), type_ref: type_ref.to_owned() }
}

fn contract(kind: ContractKind, expr: &str) -> Contract {
    Contract { kind, expression: expr.to_owned(), parsed: parse(expr) }
}

fn before(expr: &str) -> Contract {
    contract(ContractKind::Before, expr)
}

fn after(expr: &str) -> Contract {
    contract(ContractKind::After, expr)
}

fn always(expr: &str) -> Contract {
    contract(ContractKind::Always, expr)
}

fn node(id: NodeId, intent: &str, pattern: Pattern, parent: Option<NodeId>) -> Node {
    Node {
        id,
        intent: intent.to_owned(),
        pattern,
        expression: None,
        contracts: vec![],
        metadata: NodeMetadata {
            name: None,
            params: vec![],
            return_type: None,
            base_type: None,
            fields: vec![],
            following_template_name: None,
            using_pattern_name: None,
        },
        parent,
        diagonal_refs: vec![],
        context: None,
    }
}

fn scope_of(params: &[Param]) -> Option<ContextPacket> {
    Some(ContextPacket {
        scope: params
            .iter()
            .map(|p| ScopeVariable { name: p.name.clone(), kind: ScopeVariableKind::Parameter })
            .collect(),
        inherited_constraints: vec![],
        promoted_facts: vec![],
    })
}

const ROOT: NodeId = 1;

fn empty_describe_graph() -> AilGraph {
    let mut graph = AilGraph::new();
    graph.add_node(node(ROOT, "root", Pattern::Describe, None)).unwrap();
    graph
}

fn add_do(
    graph: &mut AilGraph,
    id: NodeId,
    parent: NodeId,
    name: &str,
    params: Vec<Param>,
    return_type: Option<&str>,
    contracts: Vec<Contract>,
) -> NodeId {
    let mut n = node(id, name, Pattern::Do, Some(parent));
    n.metadata.name = Some(name.to_string());
    n.context = scope_of(&params);
    n.metadata.params = params;
    n.metadata.return_type = return_type.map(str::to_string);
    n.contracts = contracts;
    graph.add_node(n).unwrap();
    id
}

const DO_ID: NodeId = 2;

fn single_do_graph(params: Vec<Param>, return_type: Option<&str>, contracts: Vec<Contract>) -> AilGraph {
    let mut graph = empty_describe_graph();
    add_do(&mut graph, DO_ID, ROOT, "test_fn", params, return_type, contracts);
    graph
}

fn run_single(params: Vec<Param>, contracts: Vec<Contract>) -> Vec<VerifyError> {
    let graph = single_do_graph(params, None, contracts);
    let node = graph.get_node(DO_ID).unwrap();
    verify_node(node, &graph, &[], vec![])
}

fn has_not_entailed(errors: &[VerifyError]) -> bool {
    errors.iter().any(|e| matches!(e, VerifyError::PostconditionNotEntailed { .. }))
}

fn r(path: &[&str]) -> ValueExpr {
    ValueExpr::Ref(path.iter().map(|s| s.to_string()).collect())
}

fn old_r(path: &[&str]) -> ValueExpr {
    ValueExpr::Old(Box::new(r(path)))
}

fn int_lit(n: i64) -> ValueExpr {
    ValueExpr::Literal(LiteralValue::Integer(n))
}

fn float_lit(ten_thousandths: i64) -> ValueExpr {
    ValueExpr::Literal(LiteralValue::Float(ten_thousandths))
}

fn cmp(op: CompareOp, left: ValueExpr, right: ValueExpr) -> ConstraintExpr {
    ConstraintExpr::Compare { op, left, right }
}

// ─── the solver ─────────────────────────────────────────────────────────────

fn check_terms(terms: &[BoolTerm], ctx: &EncodeContext) -> SatResult {
    let owned: Vec<BoolTerm> = terms.iter().map(|t| t.duplicate()).collect();
    match solve(&owned, ctx) {
        SolverAnswer::Sat(_) => SatResult::Sat,
        SolverAnswer::Unsat => SatResult::Unsat,
        SolverAnswer::Unknown => SatResult::Unknown,
    }
}

fn verify_node(
    node: &Node,
    graph: &AilGraph,
    child_posts: &[ConstraintExpr],
    promoted: Vec<(NodeId, ConstraintExpr)>,
) -> Vec<VerifyError> {
    let child_posts: Vec<ConstraintExpr> = child_posts.iter().map(|c| c.duplicate()).collect();
    verify_do_node(node, graph, &child_posts, &promoted)
}

fn obstructions(nerve: &CechNerve, graph: AilGraph) -> Vec<ObstructionResult> {
    let verified = verify(graph).expect("test graph must verify");
    detect_obstructions(nerve, &verified)
}

// ─── encoding ───────────────────────────────────────────────────────────────

fn encoded(expr: &ConstraintExpr, ctx: &EncodeContext) -> BoolTerm {
    encode_constraint(expr, ctx).expect("constraint should encode")
}

#[test]
fn z3_encode_literal_integer_as_int() {
    let enc = EncodeContext::new();
    assert!(matches!(encode_value_int(&int_lit(42), &enc), Ok(IntTerm::Const(42))));
}

#[test]
fn z3_encode_literal_float_as_real() {
    let enc = EncodeContext::new();
    assert!(matches!(encode_value_real(&float_lit(31400), &enc), Ok(RealTerm::Rational(31400, 10000))));
}

#[test]
fn z3_encode_ref_from_context() {
    let mut enc = EncodeContext::new();
    enc.add_int_var("x");
    let t = encoded(&cmp(CompareOp::Gt, r(&["x"]), int_lit(0)), &enc);
    assert_eq!(check_terms(&[t], &enc), SatResult::Sat);
}

#[test]
fn z3_encode_old_ref_from_context() {
    let mut enc = EncodeContext::new();
    enc.add_old_int_var("balance");
    let t = encoded(&cmp(CompareOp::Gte, old_r(&["balance"]), int_lit(0)), &enc);
    assert_eq!(check_terms(&[t], &enc), SatResult::Sat);
}

#[test]
fn z3_encode_compare_gte_sat() {
    let mut enc = EncodeContext::new();
    enc.add_int_var("x");
    let a = encoded(&cmp(CompareOp::Gte, r(&["x"]), int_lit(0)), &enc);
    let b = encoded(&cmp(CompareOp::Gt, r(&["x"]), int_lit(0)), &enc);
    assert_eq!(check_terms(&[a, b], &enc), SatResult::Sat);
}

#[test]
fn z3_encode_compare_gte_unsat() {
    let mut enc = EncodeContext::new();
    enc.add_int_var("x");
    let a = encoded(&cmp(CompareOp::Gte, r(&["x"]), int_lit(10)), &enc);
    let b = encoded(&cmp(CompareOp::Lte, r(&["x"]), int_lit(5)), &enc);
    assert_eq!(check_terms(&[a, b], &enc), SatResult::Unsat);
}

#[test]
fn z3_encode_and_conjunction() {
    let mut enc = EncodeContext::new();
    enc.add_int_var("x");
    let t = encoded(&parse("x >= 0 and x < 100").unwrap(), &enc);
    assert_eq!(check_terms(&[t], &enc), SatResult::Sat);
}

#[test]
fn z3_encode_or_disjunction() {
    let mut enc = EncodeContext::new();
    enc.add_int_var("x");
    let t = encoded(&parse("x > 5 or x < 0").unwrap(), &enc);
    assert_eq!(check_terms(&[t], &enc), SatResult::Sat);
}

#[test]
fn z3_encode_not_negation() {
    let mut enc = EncodeContext::new();
    enc.add_int_var("x");
    let t = encoded(&parse("not x == 0").unwrap(), &enc);
    assert_eq!(check_terms(&[t], &enc), SatResult::Sat);
}

#[test]
fn z3_encode_arithmetic_sub() {
    let mut enc = EncodeContext::new();
    enc.add_int_var("new_balance");
    enc.add_int_var("amount");
    enc.add_old_int_var("balance");
    let t = encoded(&parse("new_balance == old(balance) - amount").unwrap(), &enc);
    assert_eq!(check_terms(&[t], &enc), SatResult::Sat);
}

#[test]
fn z3_encode_arithmetic_promotes_to_real() {
    let mut enc = EncodeContext::new();
    enc.add_real_var("balance");
    let t = encoded(&cmp(CompareOp::Gte, r(&["balance"]), float_lit(0)), &enc);
    assert!(matches!(t, BoolTerm::RealCmp(CmpOp::Ge, _, _)));
    assert_eq!(check_terms(&[t], &enc), SatResult::Sat);
}

#[test]
fn z3_encode_contradictory_unsat() {
    let mut enc = EncodeContext::new();
    enc.add_int_var("x");
    let t = encoded(&parse("x > 5 and x < 3").unwrap(), &enc);
    assert_eq!(check_terms(&[t], &enc), SatResult::Unsat);
}

#[test]
fn z3_encode_in_literal_set() {
    let mut enc = EncodeContext::new();
    enc.add_int_var("status_code");
    let t = encoded(&parse("status_code in {200, 201, 204}").unwrap(), &enc);
    assert_eq!(check_terms(&[t], &enc), SatResult::Sat);
    let not_member = encoded(&parse("status_code in {200, 201} and status_code == 204").unwrap(), &enc);
    assert_eq!(check_terms(&[not_member], &enc), SatResult::Unsat);
}

#[test]
fn encode_in_empty_set_is_false_and_dynamic_collection_unsupported() {
    let mut enc = EncodeContext::new();
    enc.add_int_var("x");
    let empty = ConstraintExpr::In { value: r(&["x"]), collection: ValueExpr::SetLiteral(vec![]) };
    assert!(matches!(encode_constraint(&empty, &enc), Ok(BoolTerm::Const(false))));
    let dynamic = ConstraintExpr::In { value: r(&["x"]), collection: r(&["xs"]) };
    assert!(matches!(
        encode_constraint(&dynamic, &enc),
        Err(EncodeError::UnsupportedConstraint { variant: "In-dynamic" })
    ));
}

#[test]
fn z3_encode_mod_on_real_unsupported() {
    let mut enc = EncodeContext::new();
    enc.add_real_var("x");
    let expr = cmp(
        CompareOp::Eq,
        ValueExpr::Arithmetic { op: ArithOp::Mod, left: Box::new(float_lit(50000)), right: Box::new(float_lit(20000)) },
        int_lit(0),
    );
    let err = encode_constraint(&expr, &enc).unwrap_err();
    assert!(matches!(err, EncodeError::UnsupportedConstraint { variant: "Mod-on-Real" }), "got {err:?}");
}

#[test]
fn z3_encode_nothing_literal_unsupported() {
    let enc = EncodeContext::new();
    let expr = cmp(CompareOp::Is, ValueExpr::Literal(LiteralValue::Nothing), int_lit(0));
    let err = encode_constraint(&expr, &enc).unwrap_err();
    assert!(matches!(err, EncodeError::UnsupportedConstraint { variant: "Nothing" }), "got {err:?}");
}

#[test]
fn z3_encode_unsupported_matches() {
    let enc = EncodeContext::new();
    let expr = ConstraintExpr::Matches { value: r(&["email"]), pattern: r"^[^@]+@[^@]+$".to_string() };
    let err = encode_constraint(&expr, &enc).unwrap_err();
    assert!(matches!(err, EncodeError::UnsupportedConstraint { variant: "Matches" }), "got {err:?}");
}

#[test]
fn z3_encode_unsupported_forall() {
    let enc = EncodeContext::new();
    let expr = parse("for all item in items, item > 0").unwrap();
    let err = encode_constraint(&expr, &enc).unwrap_err();
    assert!(matches!(err, EncodeError::UnsupportedConstraint { variant: "ForAll" }), "got {err:?}");
}

#[test]
fn encode_unbound_variable_names_the_path() {
    let enc = EncodeContext::new();
    let err = encode_constraint(&parse("sender.balance > 0").unwrap(), &enc).unwrap_err();
    assert_eq!(err, EncodeError::UnboundVariable { name: "sender.balance".to_string() });
    let err = encode_constraint(&parse("old(sender.balance) > 0").unwrap(), &enc).unwrap_err();
    assert_eq!(err, EncodeError::UnboundVariable { name: "old(sender.balance)".to_string() });
}

#[test]
fn encode_bool_comparison_and_ordering() {
    let mut enc = EncodeContext::new();
    enc.add_bool_var("result");
    let t = encoded(&parse("result == true").unwrap(), &enc);
    assert!(matches!(t, BoolTerm::BoolEq(_, _)));
    assert_eq!(check_terms(&[t], &enc), SatResult::Sat);
    let err = encode_constraint(&parse("result > false").unwrap(), &enc).unwrap_err();
    assert!(matches!(err, EncodeError::UnsupportedConstraint { variant: "Bool-ordering" }));
}

#[test]
fn encode_float_out_of_range_is_refused() {
    let enc = EncodeContext::new();
    let big = cmp(CompareOp::Gt, float_lit(3_000_000_000), int_lit(0));
    let err = encode_constraint(&big, &enc).unwrap_err();
    assert!(matches!(err, EncodeError::UnsupportedConstraint { variant: "float-out-of-i32-range" }));
}

#[test]
fn z3_encode_type_constraint_positive_int() {
    let mut enc = EncodeContext::new();
    let x = enc.add_int_var("amount");
    let assertions = encode_type_constraint(BuiltinSemanticType::PositiveInteger, x, VarSort::Int).unwrap();
    assert_eq!(check_terms(&assertions, &enc), SatResult::Sat);
    let mut with_zero = assertions;
    with_zero.push(BoolTerm::IntCmp(CmpOp::Eq, Box::new(IntTerm::Var(x)), Box::new(IntTerm::Const(0))));
    assert_eq!(check_terms(&with_zero, &enc), SatResult::Unsat);
}

#[test]
fn z3_encode_type_constraint_nonneg_int() {
    let mut enc = EncodeContext::new();
    let x = enc.add_int_var("count");
    let mut assertions = encode_type_constraint(BuiltinSemanticType::NonNegativeInteger, x, VarSort::Int).unwrap();
    assertions.push(BoolTerm::IntCmp(CmpOp::Eq, Box::new(IntTerm::Var(x)), Box::new(IntTerm::Const(0))));
    assert_eq!(check_terms(&assertions, &enc), SatResult::Sat);
}

#[test]
fn z3_encode_type_constraint_percentage() {
    let mut enc = EncodeContext::new();
    let p = enc.add_real_var("rate");
    let mut assertions = encode_type_constraint(BuiltinSemanticType::Percentage, p, VarSort::Real).unwrap();
    assert_eq!(assertions.len(), 2);
    assertions.push(BoolTerm::RealCmp(CmpOp::Eq, Box::new(RealTerm::Var(p)), Box::new(RealTerm::Rational(50, 1))));
    assert_eq!(check_terms(&assertions, &enc), SatResult::Sat);
}

#[test]
fn z3_encode_type_constraint_text_unsupported() {
    let mut enc = EncodeContext::new();
    let v = enc.add_bool_var("email");
    let err = encode_type_constraint(BuiltinSemanticType::NonEmptyText, v, VarSort::Bool).unwrap_err();
    assert!(matches!(err, EncodeError::UnsupportedConstraint { variant: "type-text" }), "got {err:?}");
}

#[test]
fn z3_encode_wallet_transfer_full_packet() {
    let mut enc = EncodeContext::new();
    let balance = enc.add_int_var("sender.balance");
    let amount = enc.add_int_var("amount");
    let new_balance = enc.add_int_var("new_balance");
    enc.add_old_int_var("sender.balance");
    let mut terms = encode_type_constraint(BuiltinSemanticType::NonNegativeInteger, balance, VarSort::Int).unwrap();
    terms.extend(encode_type_constraint(BuiltinSemanticType::PositiveInteger, amount, VarSort::Int).unwrap());
    terms.push(encoded(&cmp(CompareOp::Gte, r(&["sender.balance"]), r(&["amount"])), &enc));
    terms.push(encoded(
        &cmp(
            CompareOp::Eq,
            r(&["new_balance"]),
            ValueExpr::Arithmetic { op: ArithOp::Sub, left: Box::new(old_r(&["sender.balance"])), right: Box::new(r(&["amount"])) },
        ),
        &enc,
    ));
    terms.push(BoolTerm::IntCmp(CmpOp::Ge, Box::new(IntTerm::Var(new_balance)), Box::new(IntTerm::Const(0))));
    assert_eq!(check_terms(&terms, &enc), SatResult::Sat);
}

// ─── sorts and contexts ─────────────────────────────────────────────────────

#[test]
fn z3_verify_sort_for_builtins() {
    let graph = AilGraph::new();
    assert_eq!(sort_for_type_ref("PositiveInteger", &graph), Z3Sort::Int);
    assert_eq!(sort_for_type_ref("NonNegativeInteger", &graph), Z3Sort::Int);
    assert_eq!(sort_for_type_ref("PositiveAmount", &graph), Z3Sort::Real);
    assert_eq!(sort_for_type_ref("Percentage", &graph), Z3Sort::Real);
    assert_eq!(sort_for_type_ref("NonEmptyText", &graph), Z3Sort::Uninterpreted);
    assert_eq!(sort_for_type_ref("EmailAddress", &graph), Z3Sort::Uninterpreted);
    assert_eq!(sort_for_type_ref("Identifier", &graph), Z3Sort::Uninterpreted);
}

#[test]
fn z3_verify_sort_for_base_primitives() {
    let graph = AilGraph::new();
    assert_eq!(sort_for_type_ref("integer", &graph), Z3Sort::Int);
    assert_eq!(sort_for_type_ref("number", &graph), Z3Sort::Real);
    assert_eq!(sort_for_type_ref("text", &graph), Z3Sort::Uninterpreted);
    assert_eq!(sort_for_type_ref("bool", &graph), Z3Sort::Bool);
    assert_eq!(sort_for_type_ref("boolean", &graph), Z3Sort::Bool);
}

#[test]
fn z3_verify_sort_for_unknown_custom_is_uninterpreted() {
    let graph = AilGraph::new();
    assert_eq!(sort_for_type_ref("SomeCustomType", &graph), Z3Sort::Uninterpreted);
    assert_eq!(sort_for_type_ref("ComplexRecord", &graph), Z3Sort::Uninterpreted);
}

#[test]
fn z3_verify_sort_for_define_alias_resolves_to_base() {
    let mut graph = AilGraph::new();
    let mut d = node(5, "wallet balance type", Pattern::Define, None);
    d.metadata.name = Some("WalletBalance".to_string());
    d.metadata.base_type = Some("number".to_string());
    graph.add_node(d).unwrap();
    assert_eq!(sort_for_type_ref("WalletBalance", &graph), Z3Sort::Real);
}

#[test]
fn z3_verify_sort_for_describe_node_is_uninterpreted() {
    let mut graph = AilGraph::new();
    let mut d = node(5, "user type", Pattern::Describe, None);
    d.metadata.name = Some("User".to_string());
    graph.add_node(d).unwrap();
    assert_eq!(sort_for_type_ref("User", &graph), Z3Sort::Uninterpreted);
}

#[test]
fn z3_verify_context_registers_int_param() {
    let graph = single_do_graph(vec![param("amount", "NonNegativeInteger")], None, vec![before("amount >= 0"), after("amount >= 0")]);
    let enc = build_encode_context(graph.get_node(DO_ID).unwrap(), &graph);
    assert!(enc.get_var(&["amount".to_string()]).is_some());
    assert!(enc.get_old_var(&["amount".to_string()]).is_some());
}

#[test]
fn z3_verify_context_skips_uninterpreted_param() {
    let graph = single_do_graph(vec![param("email", "EmailAddress")], None, vec![before("email >= 0"), after("email >= 0")]);
    let enc = build_encode_context(graph.get_node(DO_ID).unwrap(), &graph);
    assert!(enc.get_var(&["email".to_string()]).is_none());
}

#[test]
fn context_expands_record_params_and_results() {
    let mut graph = empty_describe_graph();
    let mut user = node(3, "user type", Pattern::Describe, Some(ROOT));
    user.metadata.name = Some("User".to_string());
    user.metadata.fields = vec![
        Field { name: "balance".to_string(), type_ref: "integer".to_string() },
        Field { name: "email".to_string(), type_ref: "text".to_string() },
    ];
    graph.add_node(user).unwrap();
    add_do(&mut graph, 4, ROOT, "pay", vec![param("sender", "User")], Some("User"), vec![]);
    let enc = build_encode_context(graph.get_node(4).unwrap(), &graph);
    let names: Vec<&str> = enc.vars().iter().map(|v| v.0.as_str()).collect();
    assert_eq!(names, vec!["sender.balance", "result.balance"]);
    let old: Vec<&str> = enc.old_vars().iter().map(|v| v.0.as_str()).collect();
    assert_eq!(old, vec!["old__sender.balance", "old__result.balance"]);
}

// ─── node verification ──────────────────────────────────────────────────────

#[test]
fn z3_verify_sat_type_constraints_pass() {
    let errors = run_single(vec![param("amount", "PositiveInteger")], vec![before("amount > 0"), after("amount > 0")]);
    assert!(!errors.iter().any(|e| matches!(e, VerifyError::UnsatTypeConstraints { .. })));
}

#[test]
fn z3_verify_preconditions_consistent() {
    let errors = run_single(vec![param("amount", "PositiveInteger")], vec![before("amount > 0"), before("amount >= 0"), after("amount > 0")]);
    assert!(!errors.iter().any(|e| matches!(e, VerifyError::ContradictoryPreconditions { .. })));
}

#[test]
fn z3_verify_contradictory_preconditions() {
    let errors = run_single(vec![param("amount", "PositiveInteger")], vec![before("amount > 10"), before("amount < 5"), after("amount > 0")]);
    assert!(errors.iter().any(|e| matches!(e, VerifyError::ContradictoryPreconditions { .. })));
}

#[test]
fn z3_verify_postcondition_entailed() {
    let errors = run_single(vec![param("x", "PositiveInteger")], vec![before("x > 0"), after("x > -1")]);
    assert!(errors.is_empty(), "errors: {errors:?}");
}

#[test]
fn z3_verify_postcondition_not_entailed() {
    let errors = run_single(vec![param("x", "PositiveInteger")], vec![before("x > 0"), after("x > 100")]);
    assert!(has_not_entailed(&errors));
}

#[test]
fn z3_verify_counterexample_contains_assignments() {
    let errors = run_single(vec![param("x", "PositiveInteger")], vec![before("x > 0"), after("x > 100")]);
    let cex = errors.iter().find_map(|e| match e {
        VerifyError::PostconditionNotEntailed { counterexample, .. } => Some(counterexample.clone()),
        _ => None,
    });
    let cex = cex.expect("expected counterexample in error");
    assert!(cex.contains('='), "got: {cex}");
    assert!(cex.starts_with("old__x = ") && cex.contains(", x = "), "got: {cex}");
}

#[test]
fn z3_verify_multiple_postconditions_one_fails() {
    let errors = run_single(vec![param("x", "PositiveInteger")], vec![before("x > 5"), after("x > 0"), after("x > 100")]);
    let failing: Vec<_> = errors.iter().filter(|e| matches!(e, VerifyError::PostconditionNotEntailed { .. })).collect();
    assert_eq!(failing.len(), 1, "errors: {errors:?}");
}

#[test]
fn z3_verify_encoding_fails_gracefully() {
    let graph = single_do_graph(vec![param("x", "PositiveInteger")], None, vec![before("x > 0"), after("x > 0")]);
    let matches_expr = ConstraintExpr::Matches { value: r(&["x"]), pattern: r"^\d+$".to_string() };
    let errors = verify_node(graph.get_node(DO_ID).unwrap(), &graph, &[matches_expr], vec![]);
    assert!(errors.is_empty(), "an unencodable child fact is left out; errors: {errors:?}");
}

#[test]
fn z3_verify_always_contract_entailed() {
    let errors = run_single(vec![param("balance", "PositiveInteger")], vec![before("balance > 0"), always("balance >= 0"), after("balance > 0")]);
    assert!(errors.is_empty(), "errors: {errors:?}");
}

#[test]
fn z3_verify_always_contract_not_entailed() {
    let errors = run_single(vec![param("balance", "NonNegativeInteger")], vec![before("balance >= 0"), always("balance > 50"), after("balance >= 0")]);
    assert!(has_not_entailed(&errors));
}

#[test]
fn z3_verify_old_values_in_postcondition_entailed() {
    let errors = run_single(
        vec![param("balance", "NonNegativeInteger"), param("amount", "PositiveInteger")],
        vec![before("balance >= 10"), before("amount == 5"), after("balance == old(balance) - amount")],
    );
    assert!(!errors.iter().any(|e| matches!(e, VerifyError::EncodingFailed { .. })), "errors: {errors:?}");
}

#[test]
fn z3_verify_wallet_transfer_node_passes() {
    let errors = run_single(
        vec![param("balance", "NonNegativeInteger"), param("amount", "PositiveInteger")],
        vec![before("balance >= amount"), before("amount > 0"), after("balance >= 0")],
    );
    assert!(errors.is_empty(), "errors: {errors:?}");
}

#[test]
fn z3_verify_bad_postcondition_caught() {
    let errors = run_single(
        vec![param("balance", "NonNegativeInteger"), param("amount", "PositiveInteger")],
        vec![before("balance >= amount"), before("amount > 0"), after("balance > 1000000")],
    );
    assert!(has_not_entailed(&errors));
}

#[test]
fn z3_verify_compositional_child_fact_used() {
    let graph = single_do_graph(vec![param("x", "PositiveInteger")], None, vec![before("x > 0"), after("x > 3")]);
    let node = graph.get_node(DO_ID).unwrap();
    let without = verify_node(node, &graph, &[], vec![]);
    assert!(has_not_entailed(&without));
    let with = verify_node(node, &graph, &[parse("x > 5").unwrap()], vec![]);
    assert!(with.is_empty(), "errors: {with:?}");
}

#[test]
fn unencodable_precondition_is_reported_and_checks_go_on() {
    let errors = run_single(vec![param("x", "PositiveInteger")], vec![before("y > 0"), after("x > 100")]);
    assert!(matches!(
        &errors[0],
        VerifyError::EncodingFailed { node_id: DO_ID, inner: EncodeError::UnboundVariable { name } } if name == "y"
    ));
    assert!(has_not_entailed(&errors));
}

#[test]
fn unparsed_postcondition_is_an_encoding_failure() {
    let bad = Contract { kind: ContractKind::After, expression: "x >>> 1".to_string(), parsed: Err("unexpected `>`".to_string()) };
    let errors = run_single(vec![param("x", "PositiveInteger")], vec![before("x > 0"), bad]);
    assert_eq!(errors.len(), 1);
    assert!(matches!(
        &errors[0],
        VerifyError::EncodingFailed { inner: EncodeError::UnboundVariable { name }, .. } if name == "parse error: unexpected `>`"
    ));
}

#[test]
fn unsat_type_constraints_stop_the_node() {
    let mut graph = empty_describe_graph();
    let mut alias = node(3, "impossible", Pattern::Define, Some(ROOT));
    alias.metadata.name = Some("Positive".to_string());
    alias.metadata.base_type = Some("PositiveInteger".to_string());
    graph.add_node(alias).unwrap();
    add_do(&mut graph, 4, ROOT, "f", vec![param("x", "PositiveInteger")], None, vec![before("x > 0"), after("x > 0")]);
    let node = graph.get_node(4).unwrap();
    let plan = plan_do_node(node, &graph, &vec![], &vec![]);
    let errors = node_step(&plan, &[SolverAnswer::Unsat]).0;
    assert!(matches!(&errors[..], [VerifyError::UnsatTypeConstraints { node_id: 4 }]));
    let (errors, next) = node_step(&plan, &[SolverAnswer::Unknown]);
    assert!(next.is_none());
    assert!(matches!(&errors[..], [VerifyError::SolverTimeout { contract_expr, .. }] if contract_expr == "<type constraints>"));
}

#[test]
fn t083_z3_uses_promoted_fact_as_axiom() {
    let graph = single_do_graph(vec![param("x", "PositiveInteger")], None, vec![before("x > 0"), after("x > 3")]);
    let node = graph.get_node(DO_ID).unwrap();
    let without = verify_node(node, &graph, &[], vec![]);
    assert!(has_not_entailed(&without));
    let with = verify_node(node, &graph, &[], vec![(99, parse("x > 5").unwrap())]);
    assert!(with.is_empty(), "errors: {with:?}");
}

#[test]
fn t083_z3_negated_check_promotes_negation() {
    let graph = single_do_graph(vec![param("x", "NonNegativeInteger")], None, vec![before("x >= 0"), after("x > 0")]);
    let node = graph.get_node(DO_ID).unwrap();
    let without = verify_node(node, &graph, &[], vec![]);
    assert!(has_not_entailed(&without));
    let with = verify_node(node, &graph, &[], vec![(99, parse("not x == 0").unwrap())]);
    assert!(with.is_empty(), "errors: {with:?}");
}

#[test]
fn promoted_fact_contradicting_preconditions_is_reported() {
    let graph = single_do_graph(vec![param("x", "PositiveInteger")], None, vec![before("x > 10"), after("x > 0")]);
    let node = graph.get_node(DO_ID).unwrap();
    let errors = verify_node(node, &graph, &[], vec![(7, parse("x < 5").unwrap()), (7, parse("x < 6").unwrap())]);
    assert_eq!(errors.len(), 1, "errors: {errors:?}");
    match &errors[0] {
        VerifyError::PromotedFactContradiction { node_id, source_check_ids, .. } => {
            assert_eq!(*node_id, DO_ID);
            assert_eq!(source_check_ids, &vec![7]);
        }
        other => panic!("expected PromotedFactContradiction, got {other:?}"),
    }
}

/// root → parent Do(x) → [check `check_expr`, inner Do(x)]; the inner Do
/// gets the check's condition as a promoted fact when it is promotable.
fn graph_with_check_sibling(params: Vec<Param>, check_expr: &str, promoted: bool, inner_contracts: Vec<Contract>) -> (AilGraph, NodeId) {
    let mut graph = empty_describe_graph();
    add_do(&mut graph, 2, ROOT, "parent", params.iter().map(|p| param(&p.name, &p.type_ref)).collect(), None, vec![before("x > 0"), after("x > 0")]);
    let mut check = node(3, "check guard", Pattern::Check, Some(2));
    check.expression = Some(check_expr.to_string());
    graph.add_node(check).unwrap();
    let mut inner = node(4, "inner", Pattern::Do, Some(2));
    inner.metadata.name = Some("inner".to_string());
    let mut packet = scope_of(&params).unwrap();
    if promoted {
        packet.promoted_facts = vec![PromotedFact { condition: check_expr.to_string(), parsed: parse(check_expr), source_node: 3 }];
    }
    inner.context = Some(packet);
    inner.metadata.params = params;
    inner.contracts = inner_contracts;
    graph.add_node(inner).unwrap();
    (graph, 4)
}

#[test]
fn t083_z3_proves_trivially_with_check_promotion() {
    let (graph, _) = graph_with_check_sibling(vec![param("x", "PositiveInteger")], "x > 5", true, vec![before("x > 0"), after("x > 3")]);
    let errors = verify_contracts(&graph);
    assert!(!has_not_entailed(&errors), "errors: {errors:?}");
}

#[test]
fn t083_z3_compound_check_promotes_both_conditions() {
    let (graph, _) = graph_with_check_sibling(vec![param("x", "PositiveInteger")], "x > 5 and x < 100", true, vec![before("x > 0"), after("x > 3")]);
    let errors = verify_contracts(&graph);
    assert!(!has_not_entailed(&errors), "errors: {errors:?}");
}

#[test]
fn t083_z3_opaque_function_check_not_promoted() {
    let (graph, _) = graph_with_check_sibling(vec![param("x", "PositiveInteger")], "is_valid(x)", false, vec![before("x > 0"), after("x > 3")]);
    let errors = verify_contracts(&graph);
    assert!(has_not_entailed(&errors), "errors: {errors:?}");
}

// ─── whole graphs ───────────────────────────────────────────────────────────

#[test]
fn z3_verify_contracts_empty_graph_returns_no_errors() {
    assert!(verify_contracts(&empty_describe_graph()).is_empty());
}

#[test]
fn z3_verify_contracts_valid_do_node_passes() {
    let graph = single_do_graph(vec![param("n", "PositiveInteger")], None, vec![before("n > 0"), after("n > -1")]);
    assert!(verify_contracts(&graph).is_empty());
}

#[test]
fn z3_verify_contracts_invalid_post_reported() {
    let graph = single_do_graph(vec![param("n", "PositiveInteger")], None, vec![before("n > 0"), after("n > 9999")]);
    assert!(has_not_entailed(&verify_contracts(&graph)));
}

#[test]
fn verified_child_postcondition_helps_its_parent() {
    let mut graph = empty_describe_graph();
    add_do(&mut graph, 2, ROOT, "outer", vec![param("x", "integer")], None, vec![before("x > 0"), after("x > 7")]);
    add_do(&mut graph, 3, 2, "inner", vec![param("x", "integer")], None, vec![before("x > 8"), after("x > 7")]);
    let errors = verify_contracts(&graph);
    assert!(errors.is_empty(), "the child's verified `x > 7` is a fact for its parent; errors: {errors:?}");
    let mut failing = empty_describe_graph();
    add_do(&mut failing, 2, ROOT, "outer", vec![param("x", "integer")], None, vec![before("x > 0"), after("x > 7")]);
    add_do(&mut failing, 3, 2, "inner", vec![param("x", "integer")], None, vec![before("x > 0"), after("x > 7")]);
    let errors = verify_contracts(&failing);
    let failed_nodes: Vec<NodeId> = errors
        .iter()
        .filter_map(|e| match e {
            VerifyError::PostconditionNotEntailed { node_id, .. } => Some(*node_id),
            _ => None,
        })
        .collect();
    assert_eq!(failed_nodes, vec![3, 2], "the child fails first and passes nothing to its parent");
}

fn wallet_domain_graph() -> AilGraph {
    let mut graph = empty_describe_graph();
    let mut wb = node(2, "wallet balance type", Pattern::Define, Some(ROOT));
    wb.metadata.name = Some("WalletBalance".to_owned());
    wb.metadata.base_type = Some("number".to_owned());
    wb.contracts = vec![always("value >= 0")];
    graph.add_node(wb).unwrap();
    let mut pa = node(3, "positive amount type", Pattern::Define, Some(ROOT));
    pa.metadata.name = Some("PositiveAmount".to_owned());
    pa.metadata.base_type = Some("number".to_owned());
    pa.contracts = vec![always("value > 0")];
    graph.add_node(pa).unwrap();
    let mut user = node(4, "user type", Pattern::Describe, Some(ROOT));
    user.metadata.name = Some("User".to_owned());
    user.metadata.fields = vec![Field { name: "balance".to_owned(), type_ref: "WalletBalance".to_owned() }];
    graph.add_node(user).unwrap();
    add_do(
        &mut graph,
        5,
        ROOT,
        "transfer_money",
        vec![param("sender_balance", "WalletBalance"), param("amount", "PositiveAmount")],
        None,
        vec![before("sender_balance >= amount"), before("amount > 0"), after("sender_balance >= 0")],
    );
    graph
}

fn full_verify(graph: AilGraph) -> Result<(), Vec<ContractStageError>> {
    verify(graph).map(|_| ())
}

#[test]
fn pipeline_verify_wallet_domain_fixture_passes() {
    let result = full_verify(wallet_domain_graph());
    assert!(result.is_ok(), "errors: {:?}", result.err());
}

#[test]
fn pipeline_verify_z3_error_is_a_stage_error() {
    let graph = single_do_graph(vec![param("n", "PositiveInteger")], None, vec![before("n > 0"), after("n > 9999")]);
    let errors = full_verify(graph).unwrap_err();
    assert!(errors.iter().all(|e| matches!(e, ContractStageError::Z3Verify(_))));
}

#[test]
fn counterexample_format_sorts_by_name() {
    let pairs = vec![("y".to_string(), "2".to_string()), ("old__x".to_string(), "1".to_string()), ("x".to_string(), "3".to_string())];
    assert_eq!(format_counterexample(&Some(pairs)), "old__x = 1, x = 3, y = 2");
    assert_eq!(format_counterexample(&Some(vec![])), "<empty model>");
    assert_eq!(format_counterexample(&None), "<no model>");
}

// ─── obstructions ───────────────────────────────────────────────────────────

fn parent_child_do(parent_params: Vec<Param>, parent_contracts: Vec<Contract>, child_params: Vec<Param>, child_contracts: Vec<Contract>) -> (CechNerve, AilGraph, NodeId, NodeId) {
    let mut graph = empty_describe_graph();
    add_do(&mut graph, 2, ROOT, "parent_fn", parent_params, None, parent_contracts);
    add_do(&mut graph, 3, 2, "child_fn", child_params, None, child_contracts);
    let nerve = build_nerve(&graph);
    (nerve, graph, 2, 3)
}

fn amount() -> Vec<Param> {
    vec![param("amount", "NonNegativeInteger")]
}

fn section(id: NodeId, constraints: Vec<&str>) -> SheafSection {
    SheafSection { node_id: id, constraints: constraints.into_iter().map(|c| parse(c).unwrap()).collect(), inherited: vec![] }
}

fn manual_nerve(sections: Vec<SheafSection>, a: NodeId, b: NodeId) -> CechNerve {
    CechNerve { sections, overlaps: vec![SheafOverlap { node_a: a, node_b: b, combined: vec![] }] }
}

fn plain_pair() -> AilGraph {
    let (_, graph, _, _) = parent_child_do(amount(), vec![before("amount >= 0"), after("amount >= 0")], amount(), vec![before("amount >= 0"), after("amount >= 0")]);
    graph
}

#[test]
fn consistent_overlap_returns_consistent() {
    let (nerve, graph, _, _) = parent_child_do(amount(), vec![before("amount >= 0"), after("amount >= 0")], amount(), vec![before("amount >= 0"), after("amount >= 0")]);
    let results = obstructions(&nerve, graph);
    assert_eq!(results.len(), nerve.overlaps.len());
    for r in &results {
        assert!(matches!(r.status, ObstructionStatus::Consistent), "got {:?}", r.status);
    }
}

#[test]
fn contradictory_overlap_attributes_both_sides() {
    let (nerve, graph, pid, cid) = parent_child_do(amount(), vec![before("amount > 10"), after("amount >= 0")], amount(), vec![before("amount < 5"), after("amount >= 0")]);
    let results = obstructions(&nerve, graph);
    let r = results.iter().find(|r| r.node_a == pid && r.node_b == cid).expect("result for parent-child overlap");
    match &r.status {
        ObstructionStatus::Contradictory { conflicting_a, conflicting_b } => {
            assert!(!conflicting_a.is_empty());
            assert!(!conflicting_b.is_empty());
        }
        other => panic!("expected Contradictory, got {other:?}"),
    }
}

#[test]
fn empty_combined_is_consistent() {
    let graph = plain_pair();
    let nerve = manual_nerve(vec![section(2, vec![]), section(3, vec![])], 2, 3);
    let results = obstructions(&nerve, graph);
    assert_eq!(results.len(), 1);
    assert!(matches!(results[0].status, ObstructionStatus::Consistent));
}

#[test]
fn duplicate_inherited_constraint_dedup_preserves_minimal_core() {
    let graph = plain_pair();
    let nerve = manual_nerve(vec![section(2, vec!["amount >= 0", "amount >= 0"]), section(3, vec!["amount >= 0"])], 2, 3);
    let results = obstructions(&nerve, graph);
    assert_eq!(results.len(), 1);
    assert!(matches!(results[0].status, ObstructionStatus::Consistent));
}

#[test]
fn sort_conflict_int_vs_number_returns_unknown() {
    let (nerve, graph, _, _) = parent_child_do(vec![param("amount", "integer")], vec![before("amount >= 0"), after("amount >= 0")], vec![param("amount", "number")], vec![before("amount >= 0"), after("amount >= 0")]);
    let results = obstructions(&nerve, graph);
    assert!(!results.is_empty());
    for r in &results {
        match &r.status {
            ObstructionStatus::Unknown { reason } => assert_eq!(reason, "overlap 0: sort conflict on param `amount`: Int vs Real"),
            other => panic!("expected Unknown, got {other:?}"),
        }
    }
}

#[test]
fn partial_encoding_unbound_var_returns_unknown() {
    let mut graph = empty_describe_graph();
    add_do(&mut graph, 2, ROOT, "parent_fn", vec![], None, vec![before("1 > 0"), after("1 > 0")]);
    add_do(&mut graph, 3, 2, "child_fn", vec![], None, vec![before("1 > 0"), after("1 > 0")]);
    let nerve = manual_nerve(vec![section(2, vec!["unknown_var > 0"]), section(3, vec![])], 2, 3);
    let results = obstructions(&nerve, graph);
    assert_eq!(results.len(), 1);
    match &results[0].status {
        ObstructionStatus::Unknown { reason } => assert_eq!(
            reason,
            "overlap 0: SAT result with partial encoding — side_a[0]: UnboundVariable { name: \"unknown_var\" }"
        ),
        other => panic!("expected Unknown, got {other:?}"),
    }
}

#[test]
fn one_sided_contradiction_empty_conflicting_b() {
    let graph = plain_pair();
    let nerve = manual_nerve(vec![section(2, vec!["amount > 10", "amount < 5"]), section(3, vec!["amount >= 0"])], 2, 3);
    let results = obstructions(&nerve, graph);
    match &results[0].status {
        ObstructionStatus::Contradictory { conflicting_a, conflicting_b } => {
            assert!(!conflicting_a.is_empty());
            assert!(conflicting_b.is_empty(), "got {conflicting_b:?}");
        }
        other => panic!("expected Contradictory, got {other:?}"),
    }
}

#[test]
fn same_constraint_on_both_sides_attributes_to_both() {
    let graph = plain_pair();
    let nerve = manual_nerve(vec![section(2, vec!["amount > 10", "amount < 5"]), section(3, vec!["amount > 10", "amount < 5"])], 2, 3);
    let results = obstructions(&nerve, graph);
    assert_eq!(results.len(), 1);
    assert!(matches!(results[0].status, ObstructionStatus::Contradictory { .. }), "got {:?}", results[0].status);
}

#[test]
fn missing_section_or_node_is_unknown() {
    let graph = plain_pair();
    let nerve = manual_nerve(vec![section(2, vec![])], 2, 3);
    match &obstructions(&nerve, graph)[0].status {
        ObstructionStatus::Unknown { reason } => assert_eq!(
            reason,
            "overlap 0: section missing for node_b 00000000-0000-0000-0000-000000000003"
        ),
        other => panic!("expected Unknown, got {other:?}"),
    }
    let nerve = manual_nerve(vec![section(2, vec![]), section(0xabc, vec![])], 2, 0xabc);
    match &obstructions(&nerve, plain_pair())[0].status {
        ObstructionStatus::Unknown { reason } => assert_eq!(
            reason,
            "overlap 0: graph node missing for node_b 00000000-0000-0000-0000-000000000abc"
        ),
        other => panic!("expected Unknown, got {other:?}"),
    }
}

#[test]
fn conclusion_of_unknown_and_empty_core() {
    let graph = plain_pair();
    let nerve = manual_nerve(vec![section(2, vec!["amount > 10"]), section(3, vec!["amount < 5"])], 2, 3);
    let q = match prepare_overlap(0, &nerve, &graph) {
        OverlapStep::Check(q) => q,
        OverlapStep::Decided(r) => panic!("unexpected {r:?}"),
    };
    let labels: Vec<&str> = q.labelled.iter().map(|t| t.label.as_str()).collect();
    assert_eq!(labels, vec!["lbl_a_0_0", "lbl_b_0_0"]);
    match conclude_overlap(&q, &OverlapAnswer::Unknown).status {
        ObstructionStatus::Unknown { reason } => assert_eq!(reason, "overlap 0: Z3 returned Unknown (timeout or resource limit)"),
        other => panic!("got {other:?}"),
    }
    assert!(matches!(conclude_overlap(&q, &OverlapAnswer::Unsat(vec![])).status, ObstructionStatus::Unknown { .. }));
    match conclude_overlap(&q, &OverlapAnswer::Unsat(vec!["lbl_b_0_0".to_string()])).status {
        ObstructionStatus::Contradictory { conflicting_a, conflicting_b } => {
            assert!(conflicting_a.is_empty());
            assert_eq!(conflicting_b.len(), 1);
        }
        other => panic!("got {other:?}"),
    }
}

// ─── the solver stage and models ────────────────────────────────────────────

#[test]
fn conclude_solver_stage_keeps_or_reports() {
    let verified = verify(plain_pair()).expect("test graph must verify");
    assert!(conclude_solver_stage(verified, vec![]).is_ok());
    let verified = verify(plain_pair()).expect("test graph must verify");
    let errors = match conclude_solver_stage(verified, vec![VerifyError::UnsatTypeConstraints { node_id: 2 }]) {
        Err(errors) => errors,
        Ok(_) => panic!("a solver error must fail the stage"),
    };
    assert_eq!(errors.len(), 1);
    assert!(matches!(&errors[0], ContractStageError::Z3Verify(VerifyError::UnsatTypeConstraints { node_id: 2 })));
}

#[test]
fn solve_gives_the_model_sorted_by_name() {
    let mut enc = EncodeContext::new();
    enc.add_int_var("y");
    enc.add_int_var("x");
    enc.add_old_int_var("x");
    let a = encoded(&cmp(CompareOp::Eq, r(&["x"]), int_lit(3)), &enc);
    let b = encoded(&cmp(CompareOp::Eq, r(&["y"]), int_lit(2)), &enc);
    let c = encoded(&cmp(CompareOp::Eq, old_r(&["x"]), int_lit(1)), &enc);
    match solve(&vec![a, b, c], &enc) {
        SolverAnswer::Sat(Some(pairs)) => assert_eq!(
            pairs,
            vec![
                ("old__x".to_string(), "1".to_string()),
                ("x".to_string(), "3".to_string()),
                ("y".to_string(), "2".to_string()),
            ]
        ),
        other => panic!("expected a model, got {other:?}"),
    }
}

#[test]
fn solve_leaves_a_term_over_an_unregistered_variable_undecided() {
    let enc = EncodeContext::new();
    let t = BoolTerm::IntCmp(CmpOp::Gt, Box::new(IntTerm::Var(VarRef { old: false, index: 0 })), Box::new(IntTerm::Const(0)));
    assert!(matches!(solve(&vec![t], &enc), SolverAnswer::Unknown));
}

#[test]
fn solve_rational_terms() {
    let mut enc = EncodeContext::new();
    enc.add_real_var("rate");
    let half = BoolTerm::RealCmp(CmpOp::Eq, Box::new(RealTerm::Var(VarRef { old: false, index: 0 })), Box::new(RealTerm::Rational(1, 2)));
    let above = BoolTerm::RealCmp(CmpOp::Gt, Box::new(RealTerm::Var(VarRef { old: false, index: 0 })), Box::new(RealTerm::Rational(2, 5)));
    let below = BoolTerm::RealCmp(CmpOp::Lt, Box::new(RealTerm::Var(VarRef { old: false, index: 0 })), Box::new(RealTerm::Rational(2, 5)));
    assert!(matches!(solve(&vec![half.duplicate(), above], &enc), SolverAnswer::Sat(_)));
    assert!(matches!(solve(&vec![half, below], &enc), SolverAnswer::Unsat));
}

#[test]
fn format_model_reads_the_registered_variables() {
    let mut enc = EncodeContext::new();
    enc.add_int_var("n");
    enc.add_bool_var("flag");
    let solver = z3::Solver::new();
    solver.assert(z3::ast::Bool::new_const("flag"));
    solver.assert(z3::ast::Int::new_const("n").eq(z3::ast::Int::from_i64(7)));
    assert_eq!(solver.check(), SatResult::Sat);
    let model = solver.get_model().expect("a model");
    assert_eq!(
        enc.format_model(&model),
        vec![("flag".to_string(), "true".to_string()), ("n".to_string(), "7".to_string())]
    );
}

#[test]
fn analyze_sheaf_obstructions_needs_no_verified_graph() {
    let (_, graph, pid, cid) = parent_child_do(
        amount(),
        vec![before("amount > 10"), after("amount >= 0")],
        amount(),
        vec![before("amount < 5"), after("amount >= 0")],
    );
    let (nerve, results) = analyze_sheaf_obstructions(&graph);
    assert_eq!(results.len(), nerve.overlaps.len());
    assert!(results
        .iter()
        .any(|r| r.node_a == pid && r.node_b == cid && matches!(r.status, ObstructionStatus::Contradictory { .. })));
}

#[test]
fn verification_run_over_given_answers() {
    let graph = single_do_graph(vec![param("n", "PositiveInteger")], None, vec![before("n > 0"), after("n > 9999")]);
    let mut run = VerificationRun::new(&graph);
    let plan = run.plan_next(&graph).expect("one Do node to verify");
    let mut answers: Vec<SolverAnswer> = Vec::new();
    let mut kinds: Vec<QueryKind> = Vec::new();
    loop {
        let (errors, next) = node_step(&plan, &answers);
        match next {
            None => {
                run.finish_node(&graph, errors);
                break;
            }
            Some(kind) => {
                let terms = query_terms(&plan, kind);
                assert!(!terms.is_empty());
                kinds.push(kind);
                answers.push(match kind {
                    QueryKind::Postcondition(_) => SolverAnswer::Sat(Some(vec![("n".to_string(), "1".to_string())])),
                    _ => SolverAnswer::Sat(None),
                });
            }
        }
    }
    assert_eq!(kinds, vec![QueryKind::TypeConstraints, QueryKind::Preconditions, QueryKind::Postcondition(0)]);
    assert!(run.plan_next(&graph).is_none());
    let errors = run.into_errors();
    assert_eq!(errors.len(), 1);
    match &errors[0] {
        VerifyError::PostconditionNotEntailed { contract_expr, counterexample, .. } => {
            assert_eq!(contract_expr, "n > 9999");
            assert_eq!(counterexample, "n = 1");
        }
        other => panic!("got {other:?}"),
    }
}

#[test]
fn z3_smoke_test_links_and_creates_context() {
    let solver = z3::Solver::new();
    let x = z3::ast::Int::new_const("x");
    let zero = z3::ast::Int::from_i64(0);
    solver.assert(x.gt(&zero));
    assert_eq!(solver.check(), SatResult::Sat);
}

#[test]
fn z3_smoke_test_detects_unsat() {
    let solver = z3::Solver::new();
    let x = z3::ast::Int::new_const("x");
    let zero = z3::ast::Int::from_i64(0);
    solver.assert(x.gt(&zero));
    solver.assert(x.lt(&zero));
    assert_eq!(solver.check(), SatResult::Unsat);
}

#[test]
fn z3_bool_const_to_string_matches_declared_name() {
    for name in ["lbl_a_0_0", "lbl_b_3_17", "lbl_a_42_99"] {
        assert_eq!(z3::ast::Bool::new_const(name).to_string(), name);
    }
}

#[test]
fn determinism_same_nerve_same_results() {
    let (nerve, graph, _, _) = parent_child_do(
        amount(),
        vec![before("amount > 10"), after("amount >= 0")],
        amount(),
        vec![before("amount < 5"), after("amount >= 0")],
    );
    let verified = verify(graph).expect("test graph must verify");
    let r1 = detect_obstructions(&nerve, &verified);
    let r2 = detect_obstructions(&nerve, &verified);
    assert_eq!(r1.len(), r2.len());
    for (a, b) in r1.iter().zip(r2.iter()) {
        assert_eq!(format!("{:?}", a.status), format!("{:?}", b.status));
    }
}

#[test]
fn nerve_with_no_overlaps_returns_empty() {
    let mut graph = empty_describe_graph();
    add_do(&mut graph, 2, ROOT, "lone_op", amount(), None, vec![before("amount >= 0"), after("amount >= 0")]);
    let nerve = build_nerve(&graph);
    assert!(nerve.overlaps.is_empty());
    assert!(obstructions(&nerve, graph).is_empty());
}

#[test]
fn multiple_overlaps_each_uses_fresh_solver() {
    let mut graph = empty_describe_graph();
    let contracts = || vec![before("amount >= 0"), after("amount >= 0")];
    add_do(&mut graph, 2, ROOT, "parent_fn", amount(), None, contracts());
    add_do(&mut graph, 3, 2, "child_a_fn", amount(), None, contracts());
    add_do(&mut graph, 4, 2, "child_b_fn", amount(), None, contracts());
    let nerve = CechNerve {
        sections: vec![section(2, vec!["amount > 100"]), section(3, vec!["amount > 50"]), section(4, vec!["amount < 5"])],
        overlaps: vec![
            SheafOverlap { node_a: 2, node_b: 3, combined: vec![] },
            SheafOverlap { node_a: 3, node_b: 4, combined: vec![] },
        ],
    };
    let results = obstructions(&nerve, graph);
    assert_eq!(results.len(), 2);
    assert!(matches!(results[0].status, ObstructionStatus::Consistent), "got {:?}", results[0].status);
    assert!(matches!(results[1].status, ObstructionStatus::Contradictory { .. }), "got {:?}", results[1].status);
}

#[test]
fn sort_for_cyclic_define_aliases_is_uninterpreted() {
    let mut graph = AilGraph::new();
    let mut a = node(5, "alias a", Pattern::Define, None);
    a.metadata.name = Some("AliasA".to_string());
    a.metadata.base_type = Some("AliasB".to_string());
    graph.add_node(a).unwrap();
    let mut b = node(6, "alias b", Pattern::Define, None);
    b.metadata.name = Some("AliasB".to_string());
    b.metadata.base_type = Some("AliasA".to_string());
    graph.add_node(b).unwrap();
    let mut c = node(7, "alias c", Pattern::Define, None);
    c.metadata.name = Some("AliasC".to_string());
    c.metadata.base_type = Some("AliasC".to_string());
    graph.add_node(c).unwrap();
    assert_eq!(sort_for_type_ref("AliasA", &graph), Z3Sort::Uninterpreted);
    assert_eq!(sort_for_type_ref("AliasB", &graph), Z3Sort::Uninterpreted);
    assert_eq!(sort_for_type_ref("AliasC", &graph), Z3Sort::Uninterpreted);
}

#[test]
fn conflicting_constraints_are_sorted_by_their_text() {
    let graph = plain_pair();
    let nerve = manual_nerve(vec![section(2, vec!["amount >= 10", "amount <= 5"]), section(3, vec![])], 2, 3);
    let results = obstructions(&nerve, graph);
    match &results[0].status {
        ObstructionStatus::Contradictory { conflicting_a, conflicting_b } => {
            let texts: Vec<String> = conflicting_a.iter().map(constraint_text).collect();
            assert_eq!(texts, vec!["amount <= 5".to_string(), "amount >= 10".to_string()]);
            assert!(conflicting_b.is_empty());
        }
        other => panic!("expected Contradictory, got {other:?}"),
    }
}

#[test]
fn constraint_text_writes_the_contract_language() {
    let cases = [
        "sender.balance >= old(amount) + 1",
        "for all item in items, item > 0",
        "exists x in xs, x == 2.5",
        "not a > 1 and b < 2",
        "amount * (rate - 1) <= -3",
        "status in {1, 2, 3}",
        "name matches \"^a\"",
        "flag is not true",
    ];
    for c in cases {
        assert_eq!(constraint_text(&parse(c).unwrap()), c);
    }
}

#[test]
fn format_model_reports_pre_state_variables_too() {
    let mut enc = EncodeContext::new();
    enc.add_int_var("balance");
    enc.add_old_int_var("balance");
    let old_name = enc.old_vars()[0].0.clone();
    let solver = z3::Solver::new();
    solver.assert(z3::ast::Int::new_const("balance").eq(z3::ast::Int::from_i64(3)));
    solver.assert(z3::ast::Int::new_const(old_name.as_str()).eq(z3::ast::Int::from_i64(5)));
    assert_eq!(solver.check(), SatResult::Sat);
    let model = solver.get_model().expect("a model");
    let pairs = enc.format_model(&model);
    assert_eq!(pairs.len(), 2);
    assert!(pairs.contains(&("balance".to_string(), "3".to_string())));
    assert!(pairs.contains(&(old_name, "5".to_string())));
}
