//! Decisions of the graph store that do not need the database: whether the
//! stored embedding index fits the requested model, which tables may be
//! counted, when a search has nothing to do, how search paths name a node,
//! the stored texts of patterns and contract kinds, and where a new child
//! or contract goes.

use vstd::prelude::*;

use crate::model::{ContractKind, Pattern};
use crate::text::{first_token, first_token_of, is_blank, text_equal, trim};

verus! {

/// Compatibility of the stored embedding index with the requested model.
#[derive(Debug, Clone, PartialEq, Eq)]
pub enum EmbeddingModelStatus {
    /// No vectors are stored.
    Empty,
    /// The stored vectors come from the requested model, or the store does
    /// not record a model.
    Compatible,
    /// The stored vectors come from the model `stored`; a full reindex is
    /// needed.
    Changed { stored: String },
}

/// The content of an `EmbeddingModelStatus`.
pub enum ModelStatusView {
    Empty,
    Compatible,
    Changed { stored: Seq<char> },
}

impl View for EmbeddingModelStatus {
    type V = ModelStatusView;

    open spec fn view(&self) -> ModelStatusView {
        match self {
            EmbeddingModelStatus::Empty => ModelStatusView::Empty,
            EmbeddingModelStatus::Compatible => ModelStatusView::Compatible,
            EmbeddingModelStatus::Changed { stored } => ModelStatusView::Changed { stored: stored@ },
        }
    }
}

/// The status of an index of `count` vectors whose recorded model is
/// `stored`, for the model `current`.
pub open spec fn model_status(count: nat, stored: Option<Seq<char>>, current: Seq<char>) -> ModelStatusView {
    if count == 0 {
        ModelStatusView::Empty
    } else {
        match stored {
            None => ModelStatusView::Compatible,
            Some(s) => if s == current {
                ModelStatusView::Compatible
            } else {
                ModelStatusView::Changed { stored: s }
            },
        }
    }
}

/// Decide the status of the embedding index: empty when it holds no vector
/// (whatever the recorded model), compatible when no model is recorded or
/// the recorded one is `current`, changed otherwise.
pub fn embedding_model_status(count: usize, stored: Option<String>, current: &str) -> (r: EmbeddingModelStatus)
    ensures
        r@ == model_status(
            count as nat,
            match stored {
                Some(s) => Some(s@),
                None => None,
            },
            current@,
        ),
{
    if count == 0 {
        return EmbeddingModelStatus::Empty;
    }
    match stored {
        None => EmbeddingModelStatus::Compatible,
        Some(s) => {
            if text_equal(s.as_str(), current) {
                EmbeddingModelStatus::Compatible
            } else {
                EmbeddingModelStatus::Changed { stored: s }
            }
        },
    }
}

/// The message refusing to add vectors of model `requested` to an index
/// built with `stored`; `what` names the operation (`add vector` or
/// `bulk-save`).
pub open spec fn mismatch_message(stored: Seq<char>, what: Seq<char>, requested: Seq<char>) -> Seq<char> {
    "model mismatch: index built with '"@ + stored + "', cannot "@ + what + " from '"@ + requested
        + "'; call clear_embeddings() first"@
}

/// Whether vectors of model `requested` may be saved into an index whose
/// recorded model is `stored`: always when none is recorded, else only for
/// the same model. A refusal comes with its message.
pub fn check_model_for_save(stored: &Option<String>, requested: &str, bulk: bool) -> (r: Result<(), String>)
    ensures
        r is Ok <==> (stored is None || stored->0@ == requested@),
        r matches Err(m) ==> m@ == mismatch_message(
            stored->0@,
            if bulk {
                "bulk-save"@
            } else {
                "add vector"@
            },
            requested@,
        ),
{
    match stored {
        None => Ok(()),
        Some(s) => {
            if text_equal(s.as_str(), requested) {
                Ok(())
            } else {
                let mut m = String::from_str("model mismatch: index built with '");
                m.append(s.as_str());
                m.append("', cannot ");
                m.append(if bulk { "bulk-save" } else { "add vector" });
                m.append(" from '");
                m.append(requested);
                m.append("'; call clear_embeddings() first");
                Err(m)
            }
        },
    }
}

/// The tables whose rows may be counted.
pub open spec fn countable_table(t: Seq<char>) -> bool {
    t == "nodes"@ || t == "contracts"@ || t == "edges"@ || t == "project_meta"@ || t
        == "cic_cache"@ || t == "search_fts"@ || t == "embeddings"@ || t == "coverage_cache"@
}

/// Accept a table name for row counting, or refuse it with
/// `unknown table: {name}`.
pub fn countable_table_name(table: &str) -> (r: Result<&str, String>)
    ensures
        r matches Ok(t) ==> countable_table(table@) && t@ == table@,
        r matches Err(m) ==> !countable_table(table@) && m@ == "unknown table: "@ + table@,
{
    if text_equal(table, "nodes") || text_equal(table, "contracts") || text_equal(table, "edges")
        || text_equal(table, "project_meta") || text_equal(table, "cic_cache") || text_equal(
        table,
        "search_fts",
    ) || text_equal(table, "embeddings") || text_equal(table, "coverage_cache") {
        Ok(table)
    } else {
        let mut m = String::from_str("unknown table: ");
        m.append(table);
        Err(m)
    }
}

/// A search with a zero limit or a blank query returns nothing without
/// asking the index.
pub fn search_is_empty(query: &str, limit: usize) -> (r: bool)
    ensures
        r == (limit == 0 || trim(query@).len() == 0),
{
    limit == 0 || is_blank(query)
}

/// The row limit handed to the index: `limit`, at most `i64::MAX` (a
/// negative limit would mean no limit at all).
pub fn search_row_limit(limit: usize) -> (r: i64)
    ensures
        r as int == if limit as int > i64::MAX as int {
            i64::MAX as int
        } else {
            limit as int
        },
{
    if limit as u128 > i64::MAX as u128 {
        i64::MAX
    } else {
        limit as i64
    }
}

/// The first whitespace-separated word of `s`; `s` itself when it has none.
pub fn first_word(s: &str) -> (r: String)
    ensures
        r@ == match first_token(s@) {
            Some(t) => t,
            None => s@,
        },
{
    match first_token_of(s) {
        Some(t) => t,
        None => String::from_str(s),
    }
}

/// The kinds of graph edges.
#[derive(Debug, Clone, Copy, PartialEq, Eq, Structural)]
pub enum EdgeKind {
    /// Structural parent to child.
    Ev,
    /// Sibling order.
    Eh,
    /// Diagonal reference.
    Ed,
}

/// The stored text of an edge kind.
pub fn edge_kind_str(kind: EdgeKind) -> (r: &'static str)
    ensures
        r@ == edge_kind_str_of(kind),
{
    match kind {
        EdgeKind::Ev => "ev",
        EdgeKind::Eh => "eh",
        EdgeKind::Ed => "ed",
    }
}

/// The label of a node in a search path: its name when it has one, else
/// the first word of its intent.
pub open spec fn path_label_of(name: Option<Seq<char>>, intent: Seq<char>) -> Seq<char> {
    match name {
        Some(n) => n,
        None => match first_token(intent) {
            Some(t) => t,
            None => intent,
        },
    }
}

/// The label of a node in a search path (see `path_label_of`).
pub fn path_label(name: Option<String>, intent: &str) -> (r: String)
    ensures
        r@ == path_label_of(
            match name {
                Some(n) => Some(n@),
                None => None,
            },
            intent@,
        ),
{
    match name {
        Some(n) => n,
        None => first_word(intent),
    }
}

/// How many nodes a search path may climb through before the walk is
/// taken for a cycle.
pub const MAX_PATH_DEPTH: usize = 1024;

/// A search path under construction, walked from a node up to the root.
pub struct PathWalk {
    labels: Vec<String>,
}

impl View for PathWalk {
    type V = Seq<Seq<char>>;

    closed spec fn view(&self) -> Seq<Seq<char>> {
        crate::text::views(self.labels@)
    }
}

impl PathWalk {
    /// A walk that has visited no node.
    pub fn new() -> (w: PathWalk)
        ensures
            w@ == Seq::<Seq<char>>::empty(),
    {
        let w = PathWalk { labels: Vec::new() };
        assert(w@ =~= Seq::<Seq<char>>::empty());
        w
    }

    /// Visit the next node up, `node_text` naming it for the error: its
    /// label is recorded, unless the walk already holds `MAX_PATH_DEPTH`
    /// labels, which is refused as a cycle or an excessive depth.
    pub fn visit(&mut self, name: Option<String>, intent: &str, node_text: &str) -> (r: Result<(), String>)
        ensures
            r is Ok <==> old(self)@.len() < MAX_PATH_DEPTH,
            r is Ok ==> final(self)@ == old(self)@.push(
                path_label_of(
                    match name {
                        Some(n) => Some(n@),
                        None => None,
                    },
                    intent@,
                ),
            ),
            r matches Err(m) ==> final(self)@ == old(self)@ && m@
                == "build_path: cycle or excessive depth detected at node "@ + node_text@,
    {
        if self.labels.len() >= MAX_PATH_DEPTH {
            let mut m = String::from_str("build_path: cycle or excessive depth detected at node ");
            m.append(node_text);
            return Err(m);
        }
        let label = path_label(name, intent);
        let ghost before = self.labels@;
        self.labels.push(label);
        assert(crate::text::views(self.labels@) =~= crate::text::views(before).push(self.labels@.last()@));
        Ok(())
    }

    /// The path from the root down to the node the walk started at.
    pub fn into_path(self) -> (r: Vec<String>)
        ensures
            crate::text::views(r@) == self@.reverse(),
    {
        let n = self.labels.len();
        let mut out: Vec<String> = Vec::new();
        let mut i: usize = n;
        while i > 0
            invariant
                i <= n,
                n == self.labels@.len(),
                crate::text::views(out@) == crate::text::views(self.labels@).subrange(i as int, n as int).reverse(),
            decreases i,
        {
            i -= 1;
            let ghost before = out@;
            out.push(self.labels[i].clone());
            assert(crate::text::views(out@) =~= crate::text::views(before).push(self.labels@[i as int]@));
            assert(crate::text::views(self.labels@).subrange(i as int, n as int).reverse() =~= crate::text::views(
                self.labels@,
            ).subrange(i + 1, n as int).reverse().push(self.labels@[i as int]@));
        }
        assert(crate::text::views(self.labels@).subrange(0, n as int) =~= crate::text::views(self.labels@));
        out
    }
}

/// The edge kind stored as `s`; `None` for a text that is no kind's.
pub fn edge_kind_from_text(s: &str) -> (r: Option<EdgeKind>)
    ensures
        r matches Some(k) ==> edge_kind_str_of(k) == s@,
        r is None ==> forall|k: EdgeKind| edge_kind_str_of(k) != s@,
{
    if text_equal("ev", s) {
        Some(EdgeKind::Ev)
    } else if text_equal("eh", s) {
        Some(EdgeKind::Eh)
    } else if text_equal("ed", s) {
        Some(EdgeKind::Ed)
    } else {
        None
    }
}

/// The stored text of an edge kind.
pub open spec fn edge_kind_str_of(k: EdgeKind) -> Seq<char> {
    match k {
        EdgeKind::Ev => "ev"@,
        EdgeKind::Eh => "eh"@,
        EdgeKind::Ed => "ed"@,
    }
}

/// The stored text of a pattern: its name in snake case.
pub open spec fn pattern_text_of(p: Pattern) -> Seq<char> {
    match p {
        Pattern::Describe => "describe"@,
        Pattern::Define => "define"@,
        Pattern::Error => "error"@,
        Pattern::Do => "do"@,
        Pattern::Promise => "promise"@,
        Pattern::Let => "let"@,
        Pattern::Check => "check"@,
        Pattern::ForEach => "for_each"@,
        Pattern::Match => "match"@,
        Pattern::Fetch => "fetch"@,
        Pattern::Save => "save"@,
        Pattern::Update => "update"@,
        Pattern::Remove => "remove"@,
        Pattern::Return => "return"@,
        Pattern::Raise => "raise"@,
        Pattern::Together => "together"@,
        Pattern::Retry => "retry"@,
    }
}

/// The pattern whose stored text is `s`, if any.
pub open spec fn pattern_of_text(s: Seq<char>) -> Option<Pattern> {
    if exists|p: Pattern| pattern_text_of(p) == s {
        Some(choose|p: Pattern| pattern_text_of(p) == s)
    } else {
        None
    }
}

/// The stored text of a pattern (see `pattern_text_of`).
pub fn pattern_text(p: Pattern) -> (r: &'static str)
    ensures
        r@ == pattern_text_of(p),
{
    match p {
        Pattern::Describe => "describe",
        Pattern::Define => "define",
        Pattern::Error => "error",
        Pattern::Do => "do",
        Pattern::Promise => "promise",
        Pattern::Let => "let",
        Pattern::Check => "check",
        Pattern::ForEach => "for_each",
        Pattern::Match => "match",
        Pattern::Fetch => "fetch",
        Pattern::Save => "save",
        Pattern::Update => "update",
        Pattern::Remove => "remove",
        Pattern::Return => "return",
        Pattern::Raise => "raise",
        Pattern::Together => "together",
        Pattern::Retry => "retry",
    }
}

/// The pattern stored as `s`; `None` for a text that is no pattern's.
pub fn pattern_from_text(s: &str) -> (r: Option<Pattern>)
    ensures
        r matches Some(p) ==> pattern_text_of(p) == s@,
        r is None ==> forall|p: Pattern| pattern_text_of(p) != s@,
{
    let all = [
        Pattern::Describe,
        Pattern::Define,
        Pattern::Error,
        Pattern::Do,
        Pattern::Promise,
        Pattern::Let,
        Pattern::Check,
        Pattern::ForEach,
        Pattern::Match,
        Pattern::Fetch,
        Pattern::Save,
        Pattern::Update,
        Pattern::Remove,
        Pattern::Return,
        Pattern::Raise,
        Pattern::Together,
        Pattern::Retry,
    ];
    let mut i: usize = 0;
    while i < 17
        invariant
            i <= 17,
            all@.len() == 17,
            all@ == seq![
                Pattern::Describe,
                Pattern::Define,
                Pattern::Error,
                Pattern::Do,
                Pattern::Promise,
                Pattern::Let,
                Pattern::Check,
                Pattern::ForEach,
                Pattern::Match,
                Pattern::Fetch,
                Pattern::Save,
                Pattern::Update,
                Pattern::Remove,
                Pattern::Return,
                Pattern::Raise,
                Pattern::Together,
                Pattern::Retry,
            ],
            forall|k: int| 0 <= k < i ==> pattern_text_of(#[trigger] all@[k]) != s@,
        decreases 17 - i,
    {
        let p = all[i];
        if text_equal(pattern_text(p), s) {
            return Some(p);
        }
        i += 1;
    }
    proof {
        assert forall|p: Pattern| pattern_text_of(p) != s@ by {
            let k: int = match p {
                Pattern::Describe => 0,
                Pattern::Define => 1,
                Pattern::Error => 2,
                Pattern::Do => 3,
                Pattern::Promise => 4,
                Pattern::Let => 5,
                Pattern::Check => 6,
                Pattern::ForEach => 7,
                Pattern::Match => 8,
                Pattern::Fetch => 9,
                Pattern::Save => 10,
                Pattern::Update => 11,
                Pattern::Remove => 12,
                Pattern::Return => 13,
                Pattern::Raise => 14,
                Pattern::Together => 15,
                Pattern::Retry => 16,
            };
            assert(all@[k] == p);
        }
    }
    None
}

/// Tells the stored texts of patterns apart by their length and a letter.
spec fn pattern_key(s: Seq<char>) -> Option<Pattern> {
    if s.len() == 2 {
        Some(Pattern::Do)
    } else if s.len() == 3 {
        Some(Pattern::Let)
    } else if s.len() == 4 {
        Some(Pattern::Save)
    } else if s.len() == 5 {
        if s[0] == 'e' {
            Some(Pattern::Error)
        } else if s[0] == 'c' {
            Some(Pattern::Check)
        } else if s[0] == 'm' {
            Some(Pattern::Match)
        } else if s[0] == 'f' {
            Some(Pattern::Fetch)
        } else if s[1] == 'a' {
            Some(Pattern::Raise)
        } else {
            Some(Pattern::Retry)
        }
    } else if s.len() == 6 {
        if s[0] == 'd' {
            Some(Pattern::Define)
        } else if s[0] == 'u' {
            Some(Pattern::Update)
        } else if s[2] == 'm' {
            Some(Pattern::Remove)
        } else {
            Some(Pattern::Return)
        }
    } else if s.len() == 7 {
        Some(Pattern::Promise)
    } else if s[0] == 'd' {
        Some(Pattern::Describe)
    } else if s[0] == 'f' {
        Some(Pattern::ForEach)
    } else {
        Some(Pattern::Together)
    }
}

proof fn lemma_pattern_key(p: Pattern)
    ensures
        pattern_key(pattern_text_of(p)) == Some(p),
{
    match p {
        Pattern::Describe => reveal_strlit("describe"),
        Pattern::Define => reveal_strlit("define"),
        Pattern::Error => reveal_strlit("error"),
        Pattern::Do => reveal_strlit("do"),
        Pattern::Promise => reveal_strlit("promise"),
        Pattern::Let => reveal_strlit("let"),
        Pattern::Check => reveal_strlit("check"),
        Pattern::ForEach => reveal_strlit("for_each"),
        Pattern::Match => reveal_strlit("match"),
        Pattern::Fetch => reveal_strlit("fetch"),
        Pattern::Save => reveal_strlit("save"),
        Pattern::Update => reveal_strlit("update"),
        Pattern::Remove => reveal_strlit("remove"),
        Pattern::Return => reveal_strlit("return"),
        Pattern::Raise => reveal_strlit("raise"),
        Pattern::Together => reveal_strlit("together"),
        Pattern::Retry => reveal_strlit("retry"),
    }
}

/// A pattern's stored text reads back as the same pattern: no two
/// patterns share a text.
pub proof fn lemma_pattern_text_round_trip(p: Pattern)
    ensures
        pattern_of_text(pattern_text_of(p)) == Some(p),
{
    let s = pattern_text_of(p);
    let q = choose|q: Pattern| pattern_text_of(q) == s;
    lemma_pattern_key(p);
    lemma_pattern_key(q);
}

/// The stored text of a contract kind.
pub open spec fn contract_kind_text_of(k: ContractKind) -> Seq<char> {
    match k {
        ContractKind::Before => "before"@,
        ContractKind::After => "after"@,
        ContractKind::Always => "always"@,
    }
}

/// The contract kind whose stored text is `s`, if any.
pub open spec fn contract_kind_of_text(s: Seq<char>) -> Option<ContractKind> {
    if exists|k: ContractKind| contract_kind_text_of(k) == s {
        Some(choose|k: ContractKind| contract_kind_text_of(k) == s)
    } else {
        None
    }
}

/// The stored text of a contract kind (see `contract_kind_text_of`).
pub fn contract_kind_text(k: ContractKind) -> (r: &'static str)
    ensures
        r@ == contract_kind_text_of(k),
{
    match k {
        ContractKind::Before => "before",
        ContractKind::After => "after",
        ContractKind::Always => "always",
    }
}

/// The contract kind stored as `s`; `None` for a text that is no kind's.
pub fn contract_kind_from_text(s: &str) -> (r: Option<ContractKind>)
    ensures
        r matches Some(k) ==> contract_kind_text_of(k) == s@,
        r is None ==> forall|k: ContractKind| contract_kind_text_of(k) != s@,
{
    if text_equal("before", s) {
        Some(ContractKind::Before)
    } else if text_equal("after", s) {
        Some(ContractKind::After)
    } else if text_equal("always", s) {
        Some(ContractKind::Always)
    } else {
        None
    }
}

/// A contract kind's stored text reads back as the same kind.
pub proof fn lemma_contract_kind_text_round_trip(k: ContractKind)
    ensures
        contract_kind_of_text(contract_kind_text_of(k)) == Some(k),
{
    reveal_strlit("before");
    reveal_strlit("after");
    reveal_strlit("always");
    let s = contract_kind_text_of(k);
    let q = choose|q: ContractKind| contract_kind_text_of(q) == s;
    assert(contract_kind_text_of(q) == s);
    assert(s.len() == contract_kind_text_of(q).len());
    assert(s[0] == contract_kind_text_of(q)[0]);
}

/// Where a node goes when it becomes the last child of a parent at depth
/// `parent_depth` whose children occupy positions up to `max_position`
/// (`None` when it has none): one level deeper, at the next position.
/// `None` when either number would overflow.
pub fn child_placement(parent_depth: i64, max_position: Option<i64>) -> (r: Option<(i64, i64)>)
    ensures
        r matches Some(pl) ==> pl.0 == parent_depth + 1 && pl.1 == match max_position {
            Some(m) => m + 1,
            None => 0,
        },
        r is None <==> (parent_depth == i64::MAX || max_position == Some(i64::MAX)),
{
    if parent_depth == i64::MAX {
        return None;
    }
    match max_position {
        None => Some((parent_depth + 1, 0)),
        Some(m) => if m == i64::MAX {
            None
        } else {
            Some((parent_depth + 1, m + 1))
        },
    }
}

/// The position of a contract appended to a node whose contracts occupy
/// positions up to `max_position` (`None` when it has none); `None` when
/// it would overflow.
pub fn next_position(max_position: Option<i64>) -> (r: Option<i64>)
    ensures
        r == match max_position {
            Some(m) => if m == i64::MAX {
                None
            } else {
                Some((m + 1) as i64)
            },
            None => Some(0i64),
        },
{
    match max_position {
        None => Some(0),
        Some(m) => if m == i64::MAX {
            None
        } else {
            Some(m + 1)
        },
    }
}

} // verus!
