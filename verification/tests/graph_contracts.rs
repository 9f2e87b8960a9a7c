use ail_contract::model::{InheritedConstraint, PromotedFact};
use ail_contract::sheaf::{build_nerve, extract_vars, filter_to_subtree};
use ail_contract::summary::{add_contracts, diff_contracts, BreakingChange, ContractRecord, ContractSummary};
use ail_contract::verified::{verify, ContractStageError};
use ail_contract::checks::{check_static_contracts, ContractError};
use ail_contract::expr::{ArithOp, CompareOp, ConstraintExpr, LiteralValue, ValueExpr};
use ail_contract::model::{
    AilGraph, ContextPacket, Contract, ContractKind, Node, NodeId, NodeMetadata, Param, Pattern,
    ScopeVariable, ScopeVariableKind,
};

// ─── a small reader for contract texts ──────────────────────────────────────

#[derive(Debug, Clone, PartialEq)]
enum Tok {
    Ident(String),
    Int(i64),
    Dec(i64),
    Str(String),
    Sym(String),
}

fn tokens(s: &str) -> Result<Vec<Tok>, String> {
    let cs: Vec<char> = s.chars().collect();
    let mut i = 0;
    let mut out = Vec::new();
    while i < cs.len() {
        let c = cs[i];
        if c.is_whitespace() {
            i += 1;
        } else if c.is_ascii_digit() {
            let start = i;
            while i < cs.len() && cs[i].is_ascii_digit() {
                i += 1;
            }
            if i + 1 < cs.len() && cs[i] == '.' && cs[i + 1].is_ascii_digit() {
                i += 1;
                while i < cs.len() && cs[i].is_ascii_digit() {
                    i += 1;
                }
                let text: String = cs[start..i].iter().collect();
                let f: f64 = text.parse().map_err(|_| format!("bad number {text}"))?;
                out.push(Tok::Dec((f * 10000.0).round() as i64));
            } else {
                let text: String = cs[start..i].iter().collect();
                out.push(Tok::Int(text.parse().map_err(|_| format!("bad number {text}"))?));
            }
        } else if c.is_alphabetic() || c == '_' {
            let start = i;
            while i < cs.len() && (cs[i].is_alphanumeric() || cs[i] == '_') {
                i += 1;
            }
            out.push(Tok::Ident(cs[start..i].iter().collect()));
        } else if c == '"' {
            let start = i + 1;
            i += 1;
            while i < cs.len() && cs[i] != '"' {
                i += 1;
            }
            if i >= cs.len() {
                return Err("unterminated text".to_string());
            }
            out.push(Tok::Str(cs[start..i].iter().collect()));
            i += 1;
        } else {
            let two: String = cs[i..(i + 2).min(cs.len())].iter().collect();
            if [">=", "<=", "==", "!="].contains(&two.as_str()) {
                out.push(Tok::Sym(two));
                i += 2;
            } else if "<>+-*/%(){},.".contains(c) {
                out.push(Tok::Sym(c.to_string()));
                i += 1;
            } else {
                return Err(format!("unexpected character {c}"));
            }
        }
    }
    Ok(out)
}

struct Reader {
    toks: Vec<Tok>,
    pos: usize,
}

impl Reader {
    fn peek(&self) -> Option<&Tok> {
        self.toks.get(self.pos)
    }
    fn is_word(&self, w: &str) -> bool {
        matches!(self.peek(), Some(Tok::Ident(x)) if x == w)
    }
    fn is_sym(&self, s: &str) -> bool {
        matches!(self.peek(), Some(Tok::Sym(x)) if x == s)
    }
    fn expect_sym(&mut self, s: &str) -> Result<(), String> {
        if self.is_sym(s) {
            self.pos += 1;
            Ok(())
        } else {
            Err(format!("expected {s}"))
        }
    }
    fn ident(&mut self) -> Result<String, String> {
        match self.peek() {
            Some(Tok::Ident(x)) => {
                let x = x.clone();
                self.pos += 1;
                Ok(x)
            }
            _ => Err("expected a name".to_string()),
        }
    }
    fn constraint(&mut self) -> Result<ConstraintExpr, String> {
        let mut items = vec![self.conjunction()?];
        while self.is_word("or") {
            self.pos += 1;
            items.push(self.conjunction()?);
        }
        Ok(if items.len() == 1 { items.pop().unwrap() } else { ConstraintExpr::Or(items) })
    }
    fn conjunction(&mut self) -> Result<ConstraintExpr, String> {
        let mut items = vec![self.negation()?];
        while self.is_word("and") {
            self.pos += 1;
            items.push(self.negation()?);
        }
        Ok(if items.len() == 1 { items.pop().unwrap() } else { ConstraintExpr::And(items) })
    }
    fn negation(&mut self) -> Result<ConstraintExpr, String> {
        if self.is_word("not") {
            self.pos += 1;
            return Ok(ConstraintExpr::Not(Box::new(self.negation()?)));
        }
        if self.is_word("for") {
            self.pos += 1;
            if !self.is_word("all") {
                return Err("expected all".to_string());
            }
            self.pos += 1;
            let variable = self.ident()?;
            if !self.is_word("in") {
                return Err("expected in".to_string());
            }
            self.pos += 1;
            let collection = self.value()?;
            self.expect_sym(",")?;
            let condition = Box::new(self.constraint()?);
            return Ok(ConstraintExpr::ForAll { variable, collection, condition });
        }
        if self.is_word("exists") {
            self.pos += 1;
            let variable = self.ident()?;
            if !self.is_word("in") {
                return Err("expected in".to_string());
            }
            self.pos += 1;
            let collection = self.value()?;
            self.expect_sym(",")?;
            let condition = Box::new(self.constraint()?);
            return Ok(ConstraintExpr::Exists { variable, collection, condition });
        }
        let left = self.value()?;
        let op = match self.peek() {
            Some(Tok::Sym(s)) if s == ">=" => Some(CompareOp::Gte),
            Some(Tok::Sym(s)) if s == "<=" => Some(CompareOp::Lte),
            Some(Tok::Sym(s)) if s == ">" => Some(CompareOp::Gt),
            Some(Tok::Sym(s)) if s == "<" => Some(CompareOp::Lt),
            Some(Tok::Sym(s)) if s == "==" => Some(CompareOp::Eq),
            Some(Tok::Sym(s)) if s == "!=" => Some(CompareOp::Neq),
            Some(Tok::Ident(s)) if s == "is" => Some(CompareOp::Is),
            _ => None,
        };
        if let Some(mut op) = op {
            self.pos += 1;
            if op == CompareOp::Is && self.is_word("not") {
                self.pos += 1;
                op = CompareOp::IsNot;
            }
            let right = self.value()?;
            return Ok(ConstraintExpr::Compare { op, left, right });
        }
        if self.is_word("in") {
            self.pos += 1;
            let collection = self.value()?;
            return Ok(ConstraintExpr::In { value: left, collection });
        }
        if self.is_word("matches") {
            self.pos += 1;
            return match self.peek() {
                Some(Tok::Str(p)) => {
                    let pattern = p.clone();
                    self.pos += 1;
                    Ok(ConstraintExpr::Matches { value: left, pattern })
                }
                _ => Err("expected a pattern".to_string()),
            };
        }
        Err("expected a comparison".to_string())
    }
    fn value(&mut self) -> Result<ValueExpr, String> {
        let mut left = self.term()?;
        loop {
            let op = if self.is_sym("+") {
                ArithOp::Add
            } else if self.is_sym("-") {
                ArithOp::Sub
            } else {
                return Ok(left);
            };
            self.pos += 1;
            let right = self.term()?;
            left = ValueExpr::Arithmetic { op, left: Box::new(left), right: Box::new(right) };
        }
    }
    fn term(&mut self) -> Result<ValueExpr, String> {
        let mut left = self.factor()?;
        loop {
            let op = if self.is_sym("*") {
                ArithOp::Mul
            } else if self.is_sym("/") {
                ArithOp::Div
            } else if self.is_sym("%") {
                ArithOp::Mod
            } else {
                return Ok(left);
            };
            self.pos += 1;
            let right = self.factor()?;
            left = ValueExpr::Arithmetic { op, left: Box::new(left), right: Box::new(right) };
        }
    }
    fn factor(&mut self) -> Result<ValueExpr, String> {
        match self.peek().cloned() {
            Some(Tok::Int(n)) => {
                self.pos += 1;
                Ok(ValueExpr::Literal(LiteralValue::Integer(n)))
            }
            Some(Tok::Dec(n)) => {
                self.pos += 1;
                Ok(ValueExpr::Literal(LiteralValue::Float(n)))
            }
            Some(Tok::Str(t)) => {
                self.pos += 1;
                Ok(ValueExpr::Literal(LiteralValue::Text(t)))
            }
            Some(Tok::Sym(s)) if s == "-" => {
                self.pos += 1;
                match self.peek().cloned() {
                    Some(Tok::Int(n)) => {
                        self.pos += 1;
                        Ok(ValueExpr::Literal(LiteralValue::Integer(-n)))
                    }
                    Some(Tok::Dec(n)) => {
                        self.pos += 1;
                        Ok(ValueExpr::Literal(LiteralValue::Float(-n)))
                    }
                    _ => Err("expected a number".to_string()),
                }
            }
            Some(Tok::Sym(s)) if s == "(" => {
                self.pos += 1;
                let v = self.value()?;
                self.expect_sym(")")?;
                Ok(v)
            }
            Some(Tok::Sym(s)) if s == "{" => {
                self.pos += 1;
                let mut items = Vec::new();
                if !self.is_sym("}") {
                    items.push(self.value()?);
                    while self.is_sym(",") {
                        self.pos += 1;
                        items.push(self.value()?);
                    }
                }
                self.expect_sym("}")?;
                Ok(ValueExpr::SetLiteral(items))
            }
            Some(Tok::Ident(w)) => {
                self.pos += 1;
                match w.as_str() {
                    "true" => return Ok(ValueExpr::Literal(LiteralValue::Bool(true))),
                    "false" => return Ok(ValueExpr::Literal(LiteralValue::Bool(false))),
                    "nothing" => return Ok(ValueExpr::Literal(LiteralValue::Nothing)),
                    _ => {}
                }
                if w == "old" && self.is_sym("(") {
                    self.pos += 1;
                    let inner = self.value()?;
                    self.expect_sym(")")?;
                    return Ok(ValueExpr::Old(Box::new(inner)));
                }
                if self.is_sym("(") {
                    self.pos += 1;
                    let mut args = Vec::new();
                    if !self.is_sym(")") {
                        args.push(self.value()?);
                        while self.is_sym(",") {
                            self.pos += 1;
                            args.push(self.value()?);
                        }
                    }
                    self.expect_sym(")")?;
                    return Ok(ValueExpr::Call { name: w, args });
                }
                let mut path = vec![w];
                while self.is_sym(".") {
                    self.pos += 1;
                    path.push(self.ident()?);
                }
                Ok(ValueExpr::Ref(path))
            }
            _ => Err("expected a value".to_string()),
        }
    }
}

fn parse(s: &str) -> Result<ConstraintExpr, String> {
    let toks = tokens(s)?;
    let mut r = Reader { toks, pos: 0 };
    let c = r.constraint()?;
    if r.pos != r.toks.len() {
        return Err(format!("unexpected trailing input in `{s}`"));
    }
    Ok(c)
}

// ─── graph helpers ──────────────────────────────────────────────────────────

fn param(name: &str, type_ref: &str) -> Param {
    Param { name: name.to_owned(), type_ref: type_ref.to_owned() }
}

fn contract(kind: ContractKind, expr: &str) -> Contract {
    Contract { kind, expression: expr.to_owned(), parsed: parse(expr) }
}

fn metadata() -> NodeMetadata {
    NodeMetadata {
        name: None,
        params: vec![],
        return_type: None,
        base_type: None,
        fields: vec![],
        following_template_name: None,
        using_pattern_name: None,
    }
}

fn node(id: NodeId, intent: &str, pattern: Pattern, parent: Option<NodeId>) -> Node {
    Node {
        id,
        intent: intent.to_owned(),
        pattern,
        expression: None,
        contracts: vec![],
        metadata: metadata(),
        parent,
        diagonal_refs: vec![],
        context: None,
    }
}

/// The context packet of a node whose enclosing function declares `params`.
fn scope_of(params: &[Param]) -> Option<ContextPacket> {
    Some(ContextPacket {
        scope: params
            .iter()
            .map(|p| ScopeVariable { name: p.name.clone(), kind: ScopeVariableKind::Parameter })
            .collect(),
        inherited_constraints: vec![],
        promoted_facts: vec![],
    })
}

const ROOT: NodeId = 1;

/// root (Describe) with one Do child: params `amount: number`, a before and
/// an after contract.
fn single_do_graph(before_expr: &str, after_expr: &str) -> AilGraph {
    let mut graph = AilGraph::new();
    graph.add_node(node(ROOT, "root", Pattern::Describe, None)).unwrap();
    let mut do_node = node(2, "do something with amount", Pattern::Do, Some(ROOT));
    do_node.metadata.params = vec![param("amount", "number")];
    do_node.metadata.return_type = Some("number".to_owned());
    do_node.contracts = vec![
        contract(ContractKind::Before, before_expr),
        contract(ContractKind::After, after_expr),
    ];
    do_node.context = scope_of(&do_node.metadata.params);
    graph.add_node(do_node).unwrap();
    graph
}

/// root with an Error declaration and a Do whose body raises `raise_expr`;
/// with `wire_ed` the Do declares the error through a diagonal reference.
fn raise_graph(raise_expr: &str, wire_ed: bool) -> AilGraph {
    let mut graph = AilGraph::new();
    graph.add_node(node(ROOT, "root", Pattern::Describe, None)).unwrap();
    let mut error_node = node(2, "insufficient funds error", Pattern::Error, Some(ROOT));
    error_node.metadata.name = Some("InsufficientFunds".to_owned());
    graph.add_node(error_node).unwrap();
    let mut do_node = node(3, "transfer funds", Pattern::Do, Some(ROOT));
    do_node.metadata.params = vec![param("amount", "number")];
    do_node.metadata.return_type = Some("number".to_owned());
    do_node.contracts = vec![
        contract(ContractKind::Before, "amount > 0"),
        contract(ContractKind::After, "result >= 0"),
    ];
    do_node.context = scope_of(&do_node.metadata.params);
    if wire_ed {
        do_node.diagonal_refs = vec![2];
    }
    graph.add_node(do_node).unwrap();
    let mut raise_node = node(4, "raise on insufficient balance", Pattern::Raise, Some(3));
    raise_node.expression = Some(raise_expr.to_owned());
    raise_node.context = scope_of(&[param("amount", "number")]);
    graph.add_node(raise_node).unwrap();
    graph
}

/// root with a template Do (`TemplateFunc`, phase children) and an
/// implementing Do (`ImplFunc`) that follows it.
fn following_graph(template_phase_names: &[&str], impl_phase_names: &[&str]) -> AilGraph {
    let mut graph = AilGraph::new();
    graph.add_node(node(ROOT, "root", Pattern::Describe, None)).unwrap();
    let mut tmpl = node(2, "template function", Pattern::Do, Some(ROOT));
    tmpl.metadata.name = Some("TemplateFunc".to_owned());
    tmpl.metadata.return_type = Some("number".to_owned());
    tmpl.contracts = vec![
        contract(ContractKind::Before, "true == true"),
        contract(ContractKind::After, "result >= 0"),
    ];
    tmpl.context = scope_of(&[]);
    graph.add_node(tmpl).unwrap();
    let mut next: NodeId = 10;
    for phase_name in template_phase_names {
        let mut phase = node(next, &format!("{phase_name} phase"), Pattern::Let, Some(2));
        phase.metadata.name = Some(phase_name.to_string());
        graph.add_node(phase).unwrap();
        next += 1;
    }
    let mut imp = node(3, "implementing function", Pattern::Do, Some(ROOT));
    imp.metadata.name = Some("ImplFunc".to_owned());
    imp.metadata.return_type = Some("number".to_owned());
    imp.metadata.following_template_name = Some("TemplateFunc".to_owned());
    imp.contracts = vec![
        contract(ContractKind::Before, "true == true"),
        contract(ContractKind::After, "result >= 0"),
    ];
    imp.diagonal_refs = vec![2];
    imp.context = scope_of(&[]);
    graph.add_node(imp).unwrap();
    for phase_name in impl_phase_names {
        let mut phase = node(next, &format!("{phase_name} implementation"), Pattern::Let, Some(3));
        phase.metadata.name = Some(phase_name.to_string());
        graph.add_node(phase).unwrap();
        next += 1;
    }
    graph
}

fn has_before_illegal_ref(errors: &[ContractError], illegal_ref: &str) -> bool {
    errors.iter().any(
        |e| matches!(e, ContractError::BeforeContractIllegalRef { illegal_ref: r, .. } if r == illegal_ref),
    )
}

fn has_before_uses_old(errors: &[ContractError]) -> bool {
    errors.iter().any(|e| matches!(e, ContractError::BeforeContractUsesOld { .. }))
}

fn has_after_illegal_ref(errors: &[ContractError], illegal_ref: &str) -> bool {
    errors.iter().any(
        |e| matches!(e, ContractError::AfterContractIllegalRef { illegal_ref: r, .. } if r == illegal_ref),
    )
}

fn has_raise_unknown(errors: &[ContractError], error_name: &str) -> bool {
    errors
        .iter()
        .any(|e| matches!(e, ContractError::RaiseUnknownError { error_name: n, .. } if n == error_name))
}

fn has_parse_error(errors: &[ContractError]) -> bool {
    errors.iter().any(|e| matches!(e, ContractError::ContractParseError { .. }))
}

// ─── before-contracts ───────────────────────────────────────────────────────

#[test]
fn c001_before_contract_illegal_ref() {
    let graph = single_do_graph("bad_var >= 0", "result >= 0");
    let errors = check_static_contracts(&graph);
    assert!(has_before_illegal_ref(&errors, "bad_var"), "got: {errors:?}");
}

#[test]
fn c002_before_contract_uses_old() {
    let graph = single_do_graph("old(amount) > 0", "result >= 0");
    let errors = check_static_contracts(&graph);
    assert!(has_before_uses_old(&errors), "got: {errors:?}");
}

#[test]
fn c003_valid_before_contract_passes() {
    let graph = single_do_graph("amount > 0", "result >= 0");
    let errors = check_static_contracts(&graph);
    let before_errors: Vec<_> = errors
        .iter()
        .filter(|e| {
            matches!(
                e,
                ContractError::BeforeContractIllegalRef { .. } | ContractError::BeforeContractUsesOld { .. }
            )
        })
        .collect();
    assert!(before_errors.is_empty(), "got: {before_errors:?}");
}

// ─── after-contracts ────────────────────────────────────────────────────────

#[test]
fn c004_after_contract_allows_result() {
    let graph = single_do_graph("amount > 0", "result >= 0");
    let errors = check_static_contracts(&graph);
    assert!(!errors.iter().any(|e| matches!(e, ContractError::AfterContractIllegalRef { .. })));
}

#[test]
fn c005_after_contract_allows_old() {
    let graph = single_do_graph("amount > 0", "result >= old(amount)");
    let errors = check_static_contracts(&graph);
    assert!(!errors.iter().any(|e| matches!(e, ContractError::AfterContractIllegalRef { .. })));
}

#[test]
fn c006_after_contract_illegal_ref() {
    let graph = single_do_graph("amount > 0", "bad_var >= 0");
    let errors = check_static_contracts(&graph);
    assert!(has_after_illegal_ref(&errors, "bad_var"), "got: {errors:?}");
}

#[test]
fn c007_valid_after_contract_passes() {
    let graph = single_do_graph("amount > 0", "result >= amount");
    let errors = check_static_contracts(&graph);
    assert!(!errors.iter().any(|e| matches!(e, ContractError::AfterContractIllegalRef { .. })));
}

#[test]
fn c014_after_contract_rejects_let_binding_ref() {
    let graph = single_do_graph("amount > 0", "new_balance >= 0");
    let errors = check_static_contracts(&graph);
    assert!(has_after_illegal_ref(&errors, "new_balance"), "got: {errors:?}");
}

// ─── raise ──────────────────────────────────────────────────────────────────

#[test]
fn c008_raise_unknown_error() {
    let graph = raise_graph("UnknownError", false);
    let errors = check_static_contracts(&graph);
    assert!(has_raise_unknown(&errors, "UnknownError"), "got: {errors:?}");
}

#[test]
fn c009_raise_known_error_passes() {
    let graph = raise_graph("InsufficientFunds", true);
    let errors = check_static_contracts(&graph);
    assert!(!errors.iter().any(|e| matches!(e, ContractError::RaiseUnknownError { .. })), "got: {errors:?}");
}

#[test]
fn c008b_raise_expression_with_carries_payload_still_extracts_name() {
    let graph = raise_graph("UnknownError carries balance = amount", false);
    let errors = check_static_contracts(&graph);
    assert!(has_raise_unknown(&errors, "UnknownError"), "got: {errors:?}");
}

#[test]
fn raise_unknown_error_lists_the_declared_errors() {
    let graph = raise_graph("UnknownError", true);
    let errors = check_static_contracts(&graph);
    let found = errors.iter().find_map(|e| match e {
        ContractError::RaiseUnknownError { node_id, error_name, known_errors } => {
            Some((*node_id, error_name.clone(), known_errors.clone()))
        }
        _ => None,
    });
    assert_eq!(
        found,
        Some((4, "UnknownError".to_string(), vec!["InsufficientFunds".to_string()]))
    );
}

// ─── template following ─────────────────────────────────────────────────────

#[test]
fn c010_following_all_phases_present_produces_no_errors() {
    let graph = following_graph(&["validate", "execute"], &["validate", "execute"]);
    let errors = check_static_contracts(&graph);
    assert!(!errors.iter().any(|e| matches!(e, ContractError::FollowingMissingPhase { .. })), "got: {errors:?}");
}

#[test]
fn c011_following_no_template_refs_produces_no_errors() {
    let graph = single_do_graph("amount > 0", "result >= 0");
    let errors = check_static_contracts(&graph);
    assert!(!errors.iter().any(|e| matches!(e, ContractError::FollowingMissingPhase { .. })));
}

#[test]
fn following_missing_phase_is_reported() {
    let graph = following_graph(&["validate", "execute"], &["validate"]);
    let errors = check_static_contracts(&graph);
    let missing: Vec<_> = errors
        .iter()
        .filter_map(|e| match e {
            ContractError::FollowingMissingPhase { node_id, template_name, missing_phase } => {
                Some((*node_id, template_name.clone(), missing_phase.clone()))
            }
            _ => None,
        })
        .collect();
    assert_eq!(missing, vec![(3, "TemplateFunc".to_string(), "execute".to_string())]);
}

// ─── parse errors and quantifiers ───────────────────────────────────────────

#[test]
fn c012_contract_parse_error_reported() {
    let graph = single_do_graph("<<<totally invalid!!!>>>", "result >= 0");
    let errors = check_static_contracts(&graph);
    assert!(has_parse_error(&errors), "got: {errors:?}");
}

#[test]
fn c015_quantifier_bound_variable_not_flagged_as_illegal_ref() {
    let mut graph = AilGraph::new();
    graph.add_node(node(ROOT, "root", Pattern::Describe, None)).unwrap();
    let mut do_node = node(2, "process order items", Pattern::Do, Some(ROOT));
    do_node.metadata.params = vec![param("items", "list")];
    do_node.metadata.return_type = Some("number".to_owned());
    do_node.contracts = vec![
        contract(ContractKind::Before, "items == items"),
        contract(ContractKind::After, "for all item in items, item == item"),
    ];
    do_node.context = scope_of(&do_node.metadata.params);
    graph.add_node(do_node).unwrap();
    let errors = check_static_contracts(&graph);
    assert!(!errors.iter().any(|e| matches!(e, ContractError::AfterContractIllegalRef { .. })), "got: {errors:?}");
}

#[test]
fn c013_no_errors_on_valid_do_with_param_contracts() {
    let graph = single_do_graph("amount > 0", "result >= amount");
    let errors = check_static_contracts(&graph);
    assert!(errors.is_empty(), "got: {errors:?}");
}

#[test]
fn errors_on_several_nodes_are_all_reported_in_node_order() {
    let mut graph = single_do_graph("bad_a > 0", "result >= 0");
    let mut second = node(3, "second", Pattern::Do, Some(ROOT));
    second.metadata.params = vec![param("x", "integer")];
    second.contracts = vec![contract(ContractKind::Before, "bad_b > 0")];
    second.context = scope_of(&second.metadata.params);
    graph.add_node(second).unwrap();
    let errors = check_static_contracts(&graph);
    let refs: Vec<(NodeId, String)> = errors
        .iter()
        .filter_map(|e| match e {
            ContractError::BeforeContractIllegalRef { node_id, illegal_ref, .. } => {
                Some((*node_id, illegal_ref.clone()))
            }
            _ => None,
        })
        .collect();
    assert_eq!(refs, vec![(2, "bad_a".to_string()), (3, "bad_b".to_string())]);
}

// ─── the Čech nerve ─────────────────────────────────────────────────────────


fn before(expr: &str) -> Contract {
    contract(ContractKind::Before, expr)
}

fn after(expr: &str) -> Contract {
    contract(ContractKind::After, expr)
}

fn always(expr: &str) -> Contract {
    contract(ContractKind::Always, expr)
}

fn empty_describe_graph() -> AilGraph {
    let mut graph = AilGraph::new();
    graph.add_node(node(ROOT, "root", Pattern::Describe, None)).unwrap();
    graph
}

fn add_do(
    graph: &mut AilGraph,
    id: NodeId,
    parent: NodeId,
    label: &str,
    name: &str,
    params: Vec<Param>,
    contracts: Vec<Contract>,
) -> NodeId {
    let mut n = node(id, label, Pattern::Do, Some(parent));
    n.metadata.name = Some(name.to_string());
    n.context = scope_of(&params);
    n.metadata.params = params;
    n.contracts = contracts;
    graph.add_node(n).unwrap();
    id
}

#[test]
fn sheaf_empty_graph_returns_empty_nerve() {
    let graph = empty_describe_graph();
    let nerve = build_nerve(&graph);
    assert!(nerve.sections.is_empty());
    assert!(nerve.overlaps.is_empty());
}

#[test]
fn sheaf_single_do_node_has_one_section_no_overlaps() {
    let mut graph = empty_describe_graph();
    add_do(&mut graph, 2, ROOT, "transfer", "transfer", vec![param("amount", "NonNegativeInteger")], vec![before("amount >= 0"), after("amount >= 0")]);
    let nerve = build_nerve(&graph);
    assert_eq!(nerve.sections.len(), 1);
    assert!(!nerve.sections[0].constraints.is_empty());
    assert!(nerve.overlaps.is_empty());
}

#[test]
fn sheaf_parent_child_do_nodes_produce_one_overlap() {
    let mut graph = empty_describe_graph();
    let parent_id = add_do(&mut graph, 2, ROOT, "outer op", "outer_op", vec![param("amount", "NonNegativeInteger")], vec![before("amount >= 0"), after("amount >= 0")]);
    let child_id = add_do(&mut graph, 3, parent_id, "inner op", "inner_op", vec![param("amount", "NonNegativeInteger")], vec![before("amount >= 0"), after("amount >= 0")]);
    let nerve = build_nerve(&graph);
    assert_eq!(nerve.overlaps.len(), 1);
    let ov = &nerve.overlaps[0];
    assert_eq!(ov.node_a, parent_id);
    assert_eq!(ov.node_b, child_id);
    assert!(!ov.combined.is_empty());
}

#[test]
fn sheaf_three_generation_chain_has_two_overlaps_not_three() {
    let mut graph = empty_describe_graph();
    let x = || vec![param("x", "NonNegativeInteger")];
    let cs = || vec![before("x >= 0"), after("x >= 0")];
    let gp_id = add_do(&mut graph, 2, ROOT, "grandparent", "grandparent", x(), cs());
    let p_id = add_do(&mut graph, 3, gp_id, "parent", "parent_fn", x(), cs());
    let c_id = add_do(&mut graph, 4, p_id, "child", "child_fn", x(), cs());
    let nerve = build_nerve(&graph);
    assert_eq!(nerve.overlaps.len(), 2, "two direct overlaps (gp,p) and (p,c)");
    assert!(nerve.overlaps.iter().any(|o| o.node_a == gp_id && o.node_b == p_id), "overlap (grandparent, parent) must exist");
    assert!(nerve.overlaps.iter().any(|o| o.node_a == p_id && o.node_b == c_id), "overlap (parent, child) must exist");
    assert!(!nerve.overlaps.iter().any(|o| o.node_a == gp_id && o.node_b == c_id), "transitive overlap (grandparent, child) must NOT exist");
}

#[test]
fn sheaf_siblings_with_shared_var_produce_overlap() {
    let mut graph = empty_describe_graph();
    let earlier = add_do(&mut graph, 2, ROOT, "first op", "first_op", vec![param("amount", "NonNegativeInteger")], vec![before("amount >= 0"), after("amount >= 0")]);
    let later = add_do(&mut graph, 3, ROOT, "second op", "second_op", vec![param("amount", "NonNegativeInteger")], vec![before("amount >= 0"), after("amount >= 0")]);
    let nerve = build_nerve(&graph);
    assert!(nerve.overlaps.iter().any(|o| o.node_a == earlier && o.node_b == later), "overlaps: {:?}", nerve.overlaps);
}

#[test]
fn sheaf_siblings_without_shared_var_produce_no_overlap() {
    let mut graph = empty_describe_graph();
    let a = add_do(&mut graph, 2, ROOT, "op a", "op_a", vec![param("amount", "NonNegativeInteger")], vec![before("amount >= 0"), after("amount >= 0")]);
    let b = add_do(&mut graph, 3, ROOT, "op b", "op_b", vec![param("user_id", "NonNegativeInteger")], vec![before("user_id >= 0"), after("user_id >= 0")]);
    let nerve = build_nerve(&graph);
    assert!(!nerve.overlaps.iter().any(|o| (o.node_a == a && o.node_b == b) || (o.node_a == b && o.node_b == a)));
}

#[test]
fn sheaf_output_is_deterministic_and_sorted() {
    let mut graph = empty_describe_graph();
    let amount = || vec![param("amount", "NonNegativeInteger")];
    let cs = || vec![before("amount >= 0"), after("amount >= 0")];
    let parent = add_do(&mut graph, 9, ROOT, "parent op", "parent_op", amount(), cs());
    add_do(&mut graph, 7, parent, "child one", "child_one", amount(), cs());
    add_do(&mut graph, 5, parent, "child two", "child_two", amount(), cs());
    let n1 = build_nerve(&graph);
    let n2 = build_nerve(&graph);
    assert_eq!(format!("{n1:?}"), format!("{n2:?}"));
    assert!(n1.sections.windows(2).all(|w| w[0].node_id <= w[1].node_id));
    assert!(n1.overlaps.windows(2).all(|w| (w[0].node_a, w[0].node_b) <= (w[1].node_a, w[1].node_b)));
    let pairs: Vec<(NodeId, NodeId)> = n1.overlaps.iter().map(|o| (o.node_a, o.node_b)).collect();
    assert_eq!(pairs, vec![(7, 5), (9, 5), (9, 7)]);
}

#[test]
fn sheaf_inherited_constraints_appear_in_section() {
    let mut graph = empty_describe_graph();
    let x = || vec![param("x", "NonNegativeInteger")];
    let parent = add_do(&mut graph, 2, ROOT, "outer scope", "outer_scope", x(), vec![before("x >= 0"), always("x >= 0"), after("x >= 0")]);
    let child = add_do(&mut graph, 3, parent, "inner scope", "inner_scope", x(), vec![before("x >= 0"), after("x >= 0")]);
    let mut graph2 = empty_describe_graph();
    for n in graph.all_nodes().iter().skip(1) {
        let mut copy = node(n.id, &n.intent, n.pattern, n.parent);
        copy.metadata.name = n.metadata.name.clone();
        copy.metadata.params = n.metadata.params.iter().map(|p| param(&p.name, &p.type_ref)).collect();
        copy.contracts = n.contracts.iter().map(|c| contract(c.kind, &c.expression)).collect();
        copy.context = scope_of(&copy.metadata.params);
        if n.id == child {
            if let Some(p) = copy.context.as_mut() {
                p.inherited_constraints = vec![InheritedConstraint { expression: "x >= 0".to_string(), parsed: parse("x >= 0") }];
            }
        }
        graph2.add_node(copy).unwrap();
    }
    let nerve = build_nerve(&graph2);
    let child_section = nerve.sections.iter().find(|s| s.node_id == child).expect("child section must exist");
    assert!(!child_section.inherited.is_empty());
}

fn check_then_do_graph(check_expr: &str) -> (AilGraph, NodeId, NodeId) {
    let mut graph = empty_describe_graph();
    let x = || vec![param("x", "NonNegativeInteger")];
    let parent = add_do(&mut graph, 2, ROOT, "parent scope", "parent_scope", x(), vec![before("x >= 0"), after("x >= 0")]);
    let mut check = node(3, "check x", Pattern::Check, Some(parent));
    check.expression = Some(check_expr.to_string());
    graph.add_node(check).unwrap();
    let mut inner = node(4, "inner do", Pattern::Do, Some(parent));
    inner.metadata.name = Some("inner_do".to_string());
    inner.metadata.params = x();
    inner.contracts = vec![before("x >= 0"), after("x >= 0")];
    let mut packet = scope_of(&inner.metadata.params).unwrap();
    packet.promoted_facts = vec![PromotedFact { condition: check_expr.to_string(), parsed: parse(check_expr), source_node: 3 }];
    inner.context = Some(packet);
    graph.add_node(inner).unwrap();
    (graph, parent, 4)
}

#[test]
fn sheaf_promoted_fact_appears_in_inherited() {
    let (graph, _, inner) = check_then_do_graph("x > 0");
    let nerve = build_nerve(&graph);
    let section = nerve.sections.iter().find(|s| s.node_id == inner).expect("inner Do section must exist");
    assert!(!section.inherited.is_empty());
}

#[test]
fn sheaf_compound_promoted_fact_is_and_split() {
    let (graph, _, inner) = check_then_do_graph("x > 0 and x < 100");
    let nerve = build_nerve(&graph);
    let section = nerve.sections.iter().find(|s| s.node_id == inner).expect("inner Do section must exist");
    assert!(section.inherited.len() >= 2, "got {:?}", section.inherited);
}

#[test]
fn sheaf_old_ref_does_not_inflate_var_set() {
    let constraints = vec![parse("balance >= 0").unwrap(), parse("old(balance) >= 0").unwrap()];
    let vars = extract_vars(&constraints);
    assert_eq!(vars, vec!["balance".to_string()]);
}

#[test]
fn filter_to_subtree_keeps_only_the_subtree() {
    let mut graph = empty_describe_graph();
    let amount = || vec![param("amount", "NonNegativeInteger")];
    let cs = || vec![before("amount >= 0"), after("amount >= 0")];
    let a = add_do(&mut graph, 2, ROOT, "a", "a", amount(), cs());
    let a1 = add_do(&mut graph, 3, a, "a1", "a1", amount(), cs());
    let b = add_do(&mut graph, 4, ROOT, "b", "b", amount(), cs());
    let nerve = build_nerve(&graph);
    assert_eq!(nerve.sections.len(), 3);
    let sub = filter_to_subtree(&nerve, a, &graph);
    let ids: Vec<NodeId> = sub.sections.iter().map(|s| s.node_id).collect();
    assert_eq!(ids, vec![a, a1]);
    let pairs: Vec<(NodeId, NodeId)> = sub.overlaps.iter().map(|o| (o.node_a, o.node_b)).collect();
    assert_eq!(pairs, vec![(a, a1)]);
    assert!(!ids.contains(&b));
}

// ─── the contract stage and summaries ───────────────────────────────────────

fn test_fn_graph(params: Vec<Param>, contracts: Vec<Contract>) -> AilGraph {
    let mut graph = empty_describe_graph();
    add_do(&mut graph, 2, ROOT, "do test function", "test_fn", params, contracts);
    graph
}

#[test]
fn pipeline_verify_empty_graph_returns_verified_graph() {
    let result = verify(empty_describe_graph());
    assert!(result.is_ok());
}

#[test]
fn pipeline_verify_valid_do_node_returns_verified_graph() {
    let graph = test_fn_graph(vec![param("n", "integer")], vec![before("n > 0"), after("n > -1")]);
    assert!(verify(graph).is_ok());
}

#[test]
fn pipeline_verify_static_error_aborts_before_z3() {
    let graph = test_fn_graph(vec![param("n", "integer")], vec![before("old(n) > 0"), after("n > 0")]);
    let errors = verify(graph).err().expect("old() in before contract must be a static error");
    assert!(errors.iter().any(|e| matches!(e, ContractStageError::StaticCheck(_))));
}

#[test]
fn pipeline_verified_graph_exposes_graph_and_typed() {
    let verified = verify(empty_describe_graph()).unwrap();
    assert_eq!(verified.graph().node_count(), 1);
    assert_eq!(verified.typed().node_count(), 1);
    let recovered = verified.into_inner();
    assert_eq!(recovered.node_count(), 1);
}

#[test]
fn pipeline_contract_summary_empty_for_no_do_nodes() {
    let verified = verify(empty_describe_graph()).unwrap();
    assert!(verified.contract_summary().is_empty());
}

#[test]
fn pipeline_contract_summary_captures_do_functions() {
    let graph = test_fn_graph(vec![param("n", "integer")], vec![before("n > 0"), after("n > -1")]);
    let verified = verify(graph).unwrap();
    let summary = verified.contract_summary();
    assert!(summary.contains_key("test_fn"));
    let record = summary.get("test_fn").unwrap();
    assert_eq!(record.before, vec!["n > 0".to_string()]);
    assert_eq!(record.after, vec!["n > -1".to_string()]);
    assert!(record.always.is_empty());
}

#[test]
fn pipeline_contract_summary_cached_on_repeated_calls() {
    let graph = test_fn_graph(vec![param("n", "integer")], vec![before("n > 0"), after("n > -1")]);
    let verified = verify(graph).unwrap();
    let s1 = format!("{:?}", verified.contract_summary());
    let s2 = format!("{:?}", verified.contract_summary());
    assert_eq!(s1, s2);
}

#[test]
fn summary_later_node_with_same_key_wins_and_intent_is_the_fallback_key() {
    let mut graph = empty_describe_graph();
    add_do(&mut graph, 2, ROOT, "first", "shared", vec![], vec![before("a > 0")]);
    add_do(&mut graph, 3, ROOT, "second", "shared", vec![], vec![before("b > 0")]);
    let mut unnamed = node(4, "unnamed intent", Pattern::Do, Some(ROOT));
    unnamed.contracts = vec![always("c > 0")];
    graph.add_node(unnamed).unwrap();
    let summary = ContractSummary::from_graph(&graph);
    assert_eq!(summary.len(), 2);
    assert_eq!(summary.get("shared").unwrap().node_id, 3);
    assert_eq!(summary.get("shared").unwrap().before, vec!["b > 0".to_string()]);
    assert_eq!(summary.get("unnamed intent").unwrap().always, vec!["c > 0".to_string()]);
    let keys: Vec<&str> = summary.entries().iter().map(|e| e.0.as_str()).collect();
    assert_eq!(keys, vec!["shared", "unnamed intent"]);
}

fn make_summary(fn_name: &str, before: Vec<&str>, after: Vec<&str>, always: Vec<&str>) -> ContractSummary {
    let record = ContractRecord {
        node_id: 42,
        before: before.into_iter().map(str::to_string).collect(),
        after: after.into_iter().map(str::to_string).collect(),
        always: always.into_iter().map(str::to_string).collect(),
    };
    let mut s = ContractSummary::new();
    s.insert(fn_name.to_string(), record);
    s
}

#[test]
fn pipeline_breaking_changes_no_change_when_equal() {
    let baseline = make_summary("transfer", vec!["amount > 0"], vec!["balance >= 0"], vec![]);
    let new = make_summary("transfer", vec!["amount > 0"], vec!["balance >= 0"], vec![]);
    assert!(new.breaking_changes(&baseline).is_empty());
}

#[test]
fn pipeline_breaking_changes_detects_removed_function() {
    let baseline = make_summary("transfer", vec!["amount > 0"], vec!["balance >= 0"], vec![]);
    let new = ContractSummary::new();
    let changes = new.breaking_changes(&baseline);
    assert!(changes.iter().any(|c| matches!(c, BreakingChange::FunctionRemoved { name } if name == "transfer")));
}

#[test]
fn pipeline_breaking_changes_detects_removed_contract() {
    let baseline = make_summary("transfer", vec!["amount > 0", "amount < 1000"], vec!["balance >= 0"], vec![]);
    let new = make_summary("transfer", vec!["amount > 0"], vec!["balance >= 0"], vec![]);
    let changes = new.breaking_changes(&baseline);
    assert!(changes.iter().any(|c| matches!(c,
        BreakingChange::ContractRemoved { function, kind, expr }
        if function == "transfer" && kind == "before" && expr == "amount < 1000")));
}

#[test]
fn pipeline_breaking_changes_detects_added_contract() {
    let baseline = make_summary("transfer", vec!["amount > 0"], vec!["balance >= 0"], vec![]);
    let new = make_summary("transfer", vec!["amount > 0", "amount < 1000"], vec!["balance >= 0"], vec![]);
    let changes = new.breaking_changes(&baseline);
    assert!(changes.iter().any(|c| matches!(c,
        BreakingChange::ContractAdded { function, kind, expr }
        if function == "transfer" && kind == "before" && expr == "amount < 1000")));
}

#[test]
fn pipeline_breaking_changes_new_function_is_not_breaking() {
    let baseline = make_summary("transfer", vec!["amount > 0"], vec!["balance >= 0"], vec![]);
    let mut new = make_summary("transfer", vec!["amount > 0"], vec!["balance >= 0"], vec![]);
    new.insert(
        "get_user".to_string(),
        ContractRecord { node_id: 43, before: vec!["id > 0".to_string()], after: vec!["user is valid".to_string()], always: vec![] },
    );
    let changes = new.breaking_changes(&baseline);
    assert!(!changes.iter().any(|c| matches!(c, BreakingChange::FunctionRemoved { .. })));
    assert!(changes.is_empty());
}

#[test]
fn pipeline_breaking_changes_whitespace_difference_is_flagged() {
    let baseline = make_summary("transfer", vec!["amount > 0"], vec!["balance >= 0"], vec![]);
    let new = make_summary("transfer", vec!["amount  >  0"], vec!["balance >= 0"], vec![]);
    let changes = new.breaking_changes(&baseline);
    assert!(!changes.is_empty());
    assert!(changes.iter().any(|c| matches!(c, BreakingChange::ContractRemoved { .. })));
    assert!(changes.iter().any(|c| matches!(c, BreakingChange::ContractAdded { .. })));
}

#[test]
fn breaking_changes_are_listed_removals_first_in_kind_order() {
    let baseline = make_summary("f", vec!["a"], vec!["b"], vec!["c"]);
    let new = make_summary("f", vec!["a2"], vec!["b"], vec!["c2"]);
    let changes = new.breaking_changes(&baseline);
    let text: Vec<String> = changes
        .iter()
        .map(|c| match c {
            BreakingChange::FunctionRemoved { name } => format!("removed fn {name}"),
            BreakingChange::ContractAdded { function, kind, expr } => format!("+ {function} {kind} {expr}"),
            BreakingChange::ContractRemoved { function, kind, expr } => format!("- {function} {kind} {expr}"),
        })
        .collect();
    assert_eq!(text, vec!["- f before a", "- f always c", "+ f before a2", "+ f always c2"]);
}

#[test]
fn diff_and_add_contracts_compare_raw_texts() {
    let mut changes = Vec::new();
    let base = vec!["x > 0".to_string(), "y > 0".to_string()];
    let new = vec!["y > 0".to_string(), "z > 0".to_string()];
    diff_contracts(&mut changes, "g", "after", &base, &new);
    add_contracts(&mut changes, "g", "after", &base, &new);
    assert_eq!(changes.len(), 2);
    assert!(matches!(&changes[0], BreakingChange::ContractRemoved { expr, .. } if expr == "x > 0"));
    assert!(matches!(&changes[1], BreakingChange::ContractAdded { expr, .. } if expr == "z > 0"));
}

#[test]
fn breaking_changes_swap_removed_and_added() {
    let a = make_summary("f", vec!["x > 0", "y > 0"], vec!["r >= 0"], vec![]);
    let b = make_summary("f", vec!["y > 0", "z > 0"], vec!["r >= 0"], vec!["w"]);
    let ab = a.breaking_changes(&b);
    let ba = b.breaking_changes(&a);
    let removed_ab: Vec<(String, String)> = ab
        .iter()
        .filter_map(|c| match c {
            BreakingChange::ContractRemoved { kind, expr, .. } => Some((kind.clone(), expr.clone())),
            _ => None,
        })
        .collect();
    let added_ba: Vec<(String, String)> = ba
        .iter()
        .filter_map(|c| match c {
            BreakingChange::ContractAdded { kind, expr, .. } => Some((kind.clone(), expr.clone())),
            _ => None,
        })
        .collect();
    assert_eq!(removed_ab, vec![("before".to_string(), "z > 0".to_string()), ("always".to_string(), "w".to_string())]);
    assert_eq!(added_ba, removed_ab);
    assert!(a.breaking_changes(&a).is_empty());
    assert!(b.breaking_changes(&b).is_empty());
}

#[test]
fn sheaf_overlap_combines_both_sections_parent_first() {
    let mut graph = empty_describe_graph();
    let parent_id = add_do(&mut graph, 2, ROOT, "outer op", "outer_op", vec![param("amount", "NonNegativeInteger")], vec![before("amount >= 0"), after("amount >= 1")]);
    let child_id = add_do(&mut graph, 3, parent_id, "inner op", "inner_op", vec![param("amount", "NonNegativeInteger")], vec![before("amount >= 2")]);
    let nerve = build_nerve(&graph);
    assert_eq!(nerve.sections.len(), 2);
    assert_eq!(nerve.overlaps.len(), 1);
    let ov = &nerve.overlaps[0];
    assert_eq!((ov.node_a, ov.node_b), (parent_id, child_id));
    assert_eq!(ov.combined.len(), 3);
    let parent_section = nerve.sections.iter().find(|s| s.node_id == parent_id).unwrap();
    let child_section = nerve.sections.iter().find(|s| s.node_id == child_id).unwrap();
    assert!(ov.combined[0].same(&parent_section.constraints[0]));
    assert!(ov.combined[1].same(&parent_section.constraints[1]));
    assert!(ov.combined[2].same(&child_section.constraints[0]));
}
