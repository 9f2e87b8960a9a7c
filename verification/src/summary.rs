//! Contract summaries of `Do` functions and breaking-change detection
//! between two summaries.
//!
//! Contracts are compared by their raw text: expressions that differ only in
//! whitespace count as different.

use vstd::prelude::*;

use crate::model::{AilGraph, Contract, ContractKind, Node, NodeId, Pattern};
use crate::text::{
    lemma_text_lt_total, lemma_text_lt_trans, slice_contains, text_equal, text_less, text_lt,
    views,
};

verus! {

/// The contract texts of one `Do` node, by kind, in declaration order.
#[derive(Debug)]
pub struct ContractRecord {
    pub node_id: NodeId,
    pub before: Vec<String>,
    pub after: Vec<String>,
    pub always: Vec<String>,
}

/// The content of a `ContractRecord`.
pub struct ContractRecordView {
    pub node_id: NodeId,
    pub before: Seq<Seq<char>>,
    pub after: Seq<Seq<char>>,
    pub always: Seq<Seq<char>>,
}

impl View for ContractRecord {
    type V = ContractRecordView;

    open spec fn view(&self) -> ContractRecordView {
        ContractRecordView {
            node_id: self.node_id,
            before: views(self.before@),
            after: views(self.after@),
            always: views(self.always@),
        }
    }
}

/// One breaking change between a baseline summary and a new one.
#[derive(Debug)]
pub enum BreakingChange {
    /// A function of the baseline no longer exists.
    FunctionRemoved { name: String },
    /// A contract not in the baseline was added (`kind` is `before`, `after` or `always`).
    ContractAdded { function: String, kind: String, expr: String },
    /// A contract of the baseline was removed.
    ContractRemoved { function: String, kind: String, expr: String },
}

/// The content of a `BreakingChange`.
pub enum BreakingChangeView {
    FunctionRemoved { name: Seq<char> },
    ContractAdded { function: Seq<char>, kind: Seq<char>, expr: Seq<char> },
    ContractRemoved { function: Seq<char>, kind: Seq<char>, expr: Seq<char> },
}

impl View for BreakingChange {
    type V = BreakingChangeView;

    open spec fn view(&self) -> BreakingChangeView {
        match self {
            BreakingChange::FunctionRemoved { name } => BreakingChangeView::FunctionRemoved {
                name: name@,
            },
            BreakingChange::ContractAdded { function, kind, expr } =>
                BreakingChangeView::ContractAdded {
                function: function@,
                kind: kind@,
                expr: expr@,
            },
            BreakingChange::ContractRemoved { function, kind, expr } =>
                BreakingChangeView::ContractRemoved {
                function: function@,
                kind: kind@,
                expr: expr@,
            },
        }
    }
}

/// The views of a sequence of changes.
pub open spec fn change_views(s: Seq<BreakingChange>) -> Seq<BreakingChangeView> {
    s.map_values(|c: BreakingChange| c@)
}

/// Entries of a summary: (function name, record).
pub type EntryView = (Seq<char>, ContractRecordView);

/// Keys strictly increase.
pub open spec fn keys_sorted(s: Seq<EntryView>) -> bool {
    forall|i: int, j: int|
        #![trigger s[i], s[j]]
        0 <= i < j < s.len() ==> text_lt(s[i].0, s[j].0)
}

/// The record stored under `k`, if any.
pub open spec fn lookup(s: Seq<EntryView>, k: Seq<char>) -> Option<ContractRecordView>
    decreases s.len(),
{
    if s.len() == 0 {
        None
    } else {
        match lookup(s.drop_last(), k) {
            Some(r) => Some(r),
            None => if s.last().0 == k {
                Some(s.last().1)
            } else {
                None
            },
        }
    }
}

/// Number of leading entries whose key is below `k`.
pub open spec fn lower_bound(s: Seq<EntryView>, k: Seq<char>) -> int
    decreases s.len(),
{
    if s.len() == 0 || !text_lt(s[0].0, k) {
        0
    } else {
        1 + lower_bound(s.drop_first(), k)
    }
}

/// `s` with `(k, r)` stored: replacing the entry with key `k`, or inserted in
/// key order.
pub open spec fn insert_entry(s: Seq<EntryView>, k: Seq<char>, r: ContractRecordView) -> Seq<
    EntryView,
> {
    let p = lower_bound(s, k);
    if p < s.len() && s[p].0 == k {
        s.update(p, (k, r))
    } else {
        s.insert(p, (k, r))
    }
}

/// The texts of the contracts of kind `kind` among `cs`, in order.
pub open spec fn contract_texts(cs: Seq<Contract>, kind: ContractKind) -> Seq<Seq<char>>
    decreases cs.len(),
{
    if cs.len() == 0 {
        seq![]
    } else if cs.last().kind == kind {
        contract_texts(cs.drop_last(), kind).push(cs.last().expression@)
    } else {
        contract_texts(cs.drop_last(), kind)
    }
}

/// The summary key of a node: its name, else its intent.
pub open spec fn summary_key(n: Node) -> Seq<char> {
    match n.metadata.name {
        Some(name) => name@,
        None => n.intent@,
    }
}

/// The record of a node.
pub open spec fn record_of(n: Node) -> ContractRecordView {
    ContractRecordView {
        node_id: n.id,
        before: contract_texts(n.contracts@, ContractKind::Before),
        after: contract_texts(n.contracts@, ContractKind::After),
        always: contract_texts(n.contracts@, ContractKind::Always),
    }
}

/// The entries built from `nodes`: every `Do` node stored under its key, a
/// later node replacing an earlier one with the same key.
pub open spec fn summary_of(nodes: Seq<Node>) -> Seq<EntryView>
    decreases nodes.len(),
{
    if nodes.len() == 0 {
        seq![]
    } else if nodes.last().pattern == Pattern::Do {
        insert_entry(summary_of(nodes.drop_last()), summary_key(nodes.last()), record_of(nodes.last()))
    } else {
        summary_of(nodes.drop_last())
    }
}

/// `ContractRemoved` for each text of `base` missing from `new`.
pub open spec fn removed_list(
    function: Seq<char>,
    kind: Seq<char>,
    base: Seq<Seq<char>>,
    new: Seq<Seq<char>>,
) -> Seq<BreakingChangeView>
    decreases base.len(),
{
    if base.len() == 0 {
        seq![]
    } else if new.contains(base.last()) {
        removed_list(function, kind, base.drop_last(), new)
    } else {
        removed_list(function, kind, base.drop_last(), new).push(
            BreakingChangeView::ContractRemoved { function, kind, expr: base.last() },
        )
    }
}

/// `ContractAdded` for each text of `new` missing from `base`.
pub open spec fn added_list(
    function: Seq<char>,
    kind: Seq<char>,
    base: Seq<Seq<char>>,
    new: Seq<Seq<char>>,
) -> Seq<BreakingChangeView>
    decreases new.len(),
{
    if new.len() == 0 {
        seq![]
    } else if base.contains(new.last()) {
        added_list(function, kind, base, new.drop_last())
    } else {
        added_list(function, kind, base, new.drop_last()).push(
            BreakingChangeView::ContractAdded { function, kind, expr: new.last() },
        )
    }
}

/// Removals for each baseline entry among `base`, against the new entries `cur`.
pub open spec fn removal_changes(cur: Seq<EntryView>, base: Seq<EntryView>) -> Seq<
    BreakingChangeView,
>
    decreases base.len(),
{
    if base.len() == 0 {
        seq![]
    } else {
        let (name, b) = base.last();
        removal_changes(cur, base.drop_last()) + match lookup(cur, name) {
            None => seq![BreakingChangeView::FunctionRemoved { name }],
            Some(n) => removed_list(name, "before"@, b.before, n.before) + removed_list(
                name,
                "after"@,
                b.after,
                n.after,
            ) + removed_list(name, "always"@, b.always, n.always),
        }
    }
}

/// Additions for each new entry among `cur` that the baseline `base` has.
pub open spec fn addition_changes(cur: Seq<EntryView>, base: Seq<EntryView>) -> Seq<
    BreakingChangeView,
>
    decreases cur.len(),
{
    if cur.len() == 0 {
        seq![]
    } else {
        let (name, n) = cur.last();
        addition_changes(cur.drop_last(), base) + match lookup(base, name) {
            None => seq![],
            Some(b) => added_list(name, "before"@, b.before, n.before) + added_list(
                name,
                "after"@,
                b.after,
                n.after,
            ) + added_list(name, "always"@, b.always, n.always),
        }
    }
}

/// Contract records keyed by function name, in key order.
#[derive(Debug)]
pub struct ContractSummary {
    entries: Vec<(String, ContractRecord)>,
}

/// The views of a sequence of entries.
pub open spec fn entry_views(s: Seq<(String, ContractRecord)>) -> Seq<EntryView> {
    s.map_values(|e: (String, ContractRecord)| (e.0@, e.1@))
}

impl View for ContractSummary {
    type V = Seq<EntryView>;

    closed spec fn view(&self) -> Seq<EntryView> {
        entry_views(self.entries@)
    }
}

proof fn lemma_lower_bound(s: Seq<EntryView>, k: Seq<char>)
    requires
        keys_sorted(s),
    ensures
        0 <= lower_bound(s, k) <= s.len(),
        forall|i: int| 0 <= i < lower_bound(s, k) ==> text_lt(#[trigger] s[i].0, k),
        forall|i: int| lower_bound(s, k) <= i < s.len() ==> !text_lt(#[trigger] s[i].0, k),
    decreases s.len(),
{
    if s.len() > 0 && text_lt(s[0].0, k) {
        let t = s.drop_first();
        assert forall|i: int, j: int| 0 <= i < j < t.len() implies text_lt(
            #[trigger] t[i].0,
            #[trigger] t[j].0,
        ) by {
            assert(t[i] == s[i + 1] && t[j] == s[j + 1]);
        }
        lemma_lower_bound(t, k);
        assert forall|i: int| 0 <= i < lower_bound(s, k) implies text_lt(#[trigger] s[i].0, k) by {
            if i > 0 {
                assert(s[i] == t[i - 1]);
            }
        }
        assert forall|i: int| lower_bound(s, k) <= i < s.len() implies !text_lt(
            #[trigger] s[i].0,
            k,
        ) by {
            assert(s[i] == t[i - 1]);
        }
    } else if s.len() > 0 {
        assert forall|i: int| 0 <= i < s.len() implies !text_lt(#[trigger] s[i].0, k) by {
            if i > 0 {
                assert(s[0] == s[0] && s[i] == s[i]);
                lemma_text_lt_total(s[i].0, k);
                if text_lt(s[i].0, k) {
                    assert(text_lt(s[0].0, s[i].0));
                    lemma_text_lt_trans(s[0].0, s[i].0, k);
                }
            }
        }
    }
}

proof fn lemma_insert_sorted(s: Seq<EntryView>, k: Seq<char>, r: ContractRecordView)
    requires
        keys_sorted(s),
    ensures
        keys_sorted(insert_entry(s, k, r)),
{
    lemma_lower_bound(s, k);
    let p = lower_bound(s, k);
    let t = insert_entry(s, k, r);
    if p < s.len() && s[p].0 == k {
        assert forall|i: int, j: int| 0 <= i < j < t.len() implies text_lt(
            #[trigger] t[i].0,
            #[trigger] t[j].0,
        ) by {
            assert(s[i] == s[i] && s[j] == s[j]);
        }
    } else {
        if p < s.len() {
            lemma_text_lt_total(s[p].0, k);
        }
        assert forall|i: int, j: int| 0 <= i < j < t.len() implies text_lt(
            #[trigger] t[i].0,
            #[trigger] t[j].0,
        ) by {
            if j < p {
                assert(t[i] == s[i] && t[j] == s[j]);
            } else if j == p {
                assert(t[i] == s[i]);
            } else if i == p {
                assert(t[j] == s[j - 1]);
                assert(s[p] == s[p] && s[j - 1] == s[j - 1]);
                if j - 1 > p {
                    lemma_text_lt_trans(k, s[p].0, s[j - 1].0);
                }
            } else if i < p {
                assert(t[i] == s[i] && t[j] == s[j - 1]);
            } else {
                assert(t[i] == s[i - 1] && t[j] == s[j - 1]);
            }
        }
    }
}

proof fn lemma_lookup_sorted(s: Seq<EntryView>, k: Seq<char>, p: int)
    requires
        0 <= p < s.len(),
        s[p].0 == k,
        keys_sorted(s),
    ensures
        lookup(s, k) == Some(s[p].1),
    decreases s.len(),
{
    if p < s.len() - 1 {
        let t = s.drop_last();
        assert forall|i: int, j: int| 0 <= i < j < t.len() implies text_lt(
            #[trigger] t[i].0,
            #[trigger] t[j].0,
        ) by {
            assert(t[i] == s[i] && t[j] == s[j]);
        }
        lemma_lookup_sorted(t, k, p);
    } else {
        let t = s.drop_last();
        assert forall|i: int| 0 <= i < t.len() implies #[trigger] t[i].0 != k by {
            assert(t[i] == s[i]);
            assert(text_lt(s[i].0, s[p].0));
            lemma_text_lt_total(s[i].0, k);
        }
        lemma_lookup_absent(t, k);
    }
}

proof fn lemma_lookup_absent(s: Seq<EntryView>, k: Seq<char>)
    requires
        forall|i: int| 0 <= i < s.len() ==> #[trigger] s[i].0 != k,
    ensures
        lookup(s, k) is None,
    decreases s.len(),
{
    if s.len() > 0 {
        let t = s.drop_last();
        assert forall|i: int| 0 <= i < t.len() implies #[trigger] t[i].0 != k by {
            assert(t[i] == s[i]);
        }
        lemma_lookup_absent(t, k);
    }
}

impl ContractSummary {
    #[verifier::type_invariant]
    spec fn inv(&self) -> bool {
        keys_sorted(entry_views(self.entries@))
    }

    /// An empty summary.
    pub fn new() -> (s: ContractSummary)
        ensures
            s@ == Seq::<EntryView>::empty(),
    {
        let s = ContractSummary { entries: Vec::new() };
        assert(s@ =~= Seq::<EntryView>::empty());
        s
    }

    /// Keys of the view strictly increase.
    pub fn assert_sorted(&self)
        ensures
            keys_sorted(self@),
    {
        proof {
            use_type_invariant(self);
        }
    }

    /// The entries, in key order.
    pub fn entries(&self) -> (r: &Vec<(String, ContractRecord)>)
        ensures
            entry_views(r@) == self@,
    {
        &self.entries
    }

    /// Number of functions.
    pub fn len(&self) -> (n: usize)
        ensures
            n == self@.len(),
    {
        self.entries.len()
    }

    /// `true` when no function is recorded.
    pub fn is_empty(&self) -> (b: bool)
        ensures
            b == (self@.len() == 0),
    {
        self.entries.len() == 0
    }

    /// The record stored for `name`.
    pub fn get(&self, name: &str) -> (r: Option<&ContractRecord>)
        ensures
            r matches Some(rec) ==> lookup(self@, name@) == Some(rec@),
            r is None ==> lookup(self@, name@) is None,
    {
        let mut i: usize = 0;
        while i < self.entries.len()
            invariant
                i <= self.entries@.len(),
                lookup(entry_views(self.entries@).take(i as int), name@) is None,
            decreases self.entries.len() - i,
        {
            assert(entry_views(self.entries@).take(i + 1).drop_last() =~= entry_views(
                self.entries@,
            ).take(i as int));
            if text_equal(self.entries[i].0.as_str(), name) {
                proof {
                    lemma_lookup_prefix(entry_views(self.entries@), name@, i as int);
                }
                return Some(&self.entries[i].1);
            }
            i += 1;
        }
        assert(entry_views(self.entries@).take(i as int) =~= entry_views(self.entries@));
        None
    }

    /// `true` when a record is stored for `name`.
    pub fn contains_key(&self, name: &str) -> (b: bool)
        ensures
            b == (lookup(self@, name@) is Some),
    {
        self.get(name).is_some()
    }

    /// Store `record` under `name`, replacing a previous record for the name.
    pub fn insert(&mut self, name: String, record: ContractRecord)
        ensures
            final(self)@ == insert_entry(old(self)@, name@, record@),
    {
        proof {
            use_type_invariant(&*self);
            lemma_lower_bound(self@, name@);
            lemma_insert_sorted(self@, name@, record@);
        }
        let ghost s = self@;
        let mut p: usize = 0;
        while p < self.entries.len() && text_less(self.entries[p].0.as_str(), name.as_str())
            invariant
                s == entry_views(self.entries@),
                keys_sorted(s),
                p <= self.entries@.len(),
                forall|i: int| 0 <= i < p ==> text_lt(#[trigger] s[i].0, name@),
            decreases self.entries.len() - p,
        {
            p += 1;
        }
        proof {
            lemma_lower_bound(s, name@);
            if p < s.len() {
                assert(!text_lt(s[p as int].0, name@));
            }
            assert(p == lower_bound(s, name@));
        }
        let mut entries: Vec<(String, ContractRecord)> = Vec::new();
        std::mem::swap(&mut entries, &mut self.entries);
        let ghost ks = (name@, record@);
        if p < entries.len() && text_equal(entries[p].0.as_str(), name.as_str()) {
            entries.remove(p);
            entries.insert(p, (name, record));
            assert(entry_views(entries@) =~= s.update(p as int, ks));
        } else {
            entries.insert(p, (name, record));
            assert(entry_views(entries@) =~= s.insert(p as int, ks));
        }
        self.entries = entries;
    }

    /// Build the summary of every `Do` node of `graph`, keyed by its name
    /// (falling back to its intent); a later node replaces an earlier one
    /// with the same key.
    pub fn from_graph(graph: &AilGraph) -> (s: ContractSummary)
        ensures
            s@ == summary_of(graph@),
    {
        let nodes = graph.all_nodes();
        let mut summary = ContractSummary::new();
        let mut i: usize = 0;
        while i < nodes.len()
            invariant
                nodes@ == graph@,
                i <= nodes@.len(),
                summary@ == summary_of(nodes@.take(i as int)),
            decreases nodes.len() - i,
        {
            assert(nodes@.take(i + 1).drop_last() =~= nodes@.take(i as int));
            let node = &nodes[i];
            if node.pattern == Pattern::Do {
                let key = match &node.metadata.name {
                    Some(n) => n.clone(),
                    None => node.intent.clone(),
                };
                let record = ContractRecord {
                    node_id: node.id,
                    before: texts_of_kind(&node.contracts, ContractKind::Before),
                    after: texts_of_kind(&node.contracts, ContractKind::After),
                    always: texts_of_kind(&node.contracts, ContractKind::Always),
                };
                summary.insert(key, record);
            }
            i += 1;
        }
        assert(nodes@.take(nodes@.len() as int) =~= nodes@);
        summary
    }

    /// The breaking changes of `self` (the new build) against `baseline`: a
    /// baseline function that is gone, a baseline contract that is gone, a
    /// contract that the baseline did not have. Functions new in `self` are
    /// not breaking. Removals come first, in baseline key order, then
    /// additions, in new key order.
    pub fn breaking_changes(&self, baseline: &ContractSummary) -> (changes: Vec<BreakingChange>)
        ensures
            change_views(changes@) == removal_changes(self@, baseline@) + addition_changes(
                self@,
                baseline@,
            ),
    {
        let mut changes: Vec<BreakingChange> = Vec::new();
        let base = &baseline.entries;
        let mut i: usize = 0;
        while i < base.len()
            invariant
                entry_views(base@) == baseline@,
                i <= base@.len(),
                change_views(changes@) == removal_changes(self@, entry_views(base@).take(i as int)),
            decreases base.len() - i,
        {
            assert(entry_views(base@).take(i + 1).drop_last() =~= entry_views(base@).take(
                i as int,
            ));
            let ghost mid = change_views(changes@);
            let name = &base[i].0;
            let base_record = &base[i].1;
            match self.get(name.as_str()) {
                None => {
                    changes.push(BreakingChange::FunctionRemoved { name: name.clone() });
                    assert(change_views(changes@) =~= mid.push(
                        BreakingChangeView::FunctionRemoved { name: name@ },
                    ));
                },
                Some(new_record) => {
                    diff_contracts(
                        &mut changes,
                        name.as_str(),
                        "before",
                        base_record.before.as_slice(),
                        new_record.before.as_slice(),
                    );
                    diff_contracts(
                        &mut changes,
                        name.as_str(),
                        "after",
                        base_record.after.as_slice(),
                        new_record.after.as_slice(),
                    );
                    diff_contracts(
                        &mut changes,
                        name.as_str(),
                        "always",
                        base_record.always.as_slice(),
                        new_record.always.as_slice(),
                    );
                },
            }
            assert(change_views(changes@) =~= removal_changes(
                self@,
                entry_views(base@).take(i + 1),
            ));
            i += 1;
        }
        assert(entry_views(base@).take(base@.len() as int) =~= entry_views(base@));
        let ghost removals = change_views(changes@);
        let cur = &self.entries;
        let mut j: usize = 0;
        while j < cur.len()
            invariant
                entry_views(cur@) == self@,
                j <= cur@.len(),
                change_views(changes@) == removals + addition_changes(
                    entry_views(cur@).take(j as int),
                    baseline@,
                ),
            decreases cur.len() - j,
        {
            assert(entry_views(cur@).take(j + 1).drop_last() =~= entry_views(cur@).take(j as int));
            let name = &cur[j].0;
            let new_record = &cur[j].1;
            match baseline.get(name.as_str()) {
                None => {},
                Some(base_record) => {
                    add_contracts(
                        &mut changes,
                        name.as_str(),
                        "before",
                        base_record.before.as_slice(),
                        new_record.before.as_slice(),
                    );
                    add_contracts(
                        &mut changes,
                        name.as_str(),
                        "after",
                        base_record.after.as_slice(),
                        new_record.after.as_slice(),
                    );
                    add_contracts(
                        &mut changes,
                        name.as_str(),
                        "always",
                        base_record.always.as_slice(),
                        new_record.always.as_slice(),
                    );
                },
            }
            assert(change_views(changes@) =~= removals + addition_changes(
                entry_views(cur@).take(j + 1),
                baseline@,
            ));
            j += 1;
        }
        assert(entry_views(cur@).take(cur@.len() as int) =~= entry_views(cur@));
        changes
    }
}

proof fn lemma_lookup_prefix(s: Seq<EntryView>, k: Seq<char>, i: int)
    requires
        0 <= i < s.len(),
        lookup(s.take(i), k) is None,
        s[i].0 == k,
    ensures
        lookup(s, k) == Some(s[i].1),
    decreases s.len(),
{
    if i < s.len() - 1 {
        assert(s.drop_last().take(i) =~= s.take(i));
        lemma_lookup_prefix(s.drop_last(), k, i);
    } else {
        assert(s.drop_last() =~= s.take(i));
    }
}

fn texts_of_kind(cs: &Vec<Contract>, kind: ContractKind) -> (r: Vec<String>)
    ensures
        views(r@) == contract_texts(cs@, kind),
{
    let mut out: Vec<String> = Vec::new();
    let mut i: usize = 0;
    while i < cs.len()
        invariant
            i <= cs@.len(),
            views(out@) == contract_texts(cs@.take(i as int), kind),
        decreases cs.len() - i,
    {
        assert(cs@.take(i + 1).drop_last() =~= cs@.take(i as int));
        if cs[i].kind == kind {
            out.push(cs[i].expression.clone());
        }
        assert(views(out@) =~= contract_texts(cs@.take(i + 1), kind));
        i += 1;
    }
    assert(cs@.take(cs@.len() as int) =~= cs@);
    out
}

/// Append a `ContractRemoved` for each expression of `baseline` that `new`
/// does not contain.
pub fn diff_contracts(
    changes: &mut Vec<BreakingChange>,
    function: &str,
    kind: &str,
    baseline: &[String],
    new: &[String],
)
    ensures
        change_views(final(changes)@) == change_views(old(changes)@) + removed_list(
            function@,
            kind@,
            views(baseline@),
            views(new@),
        ),
{
    let ghost start = change_views(changes@);
    let mut i: usize = 0;
    while i < baseline.len()
        invariant
            i <= baseline@.len(),
            change_views(changes@) == start + removed_list(
                function@,
                kind@,
                views(baseline@.take(i as int)),
                views(new@),
            ),
        decreases baseline.len() - i,
    {
        assert(views(baseline@.take(i + 1)).drop_last() =~= views(baseline@.take(i as int)));
        assert(views(baseline@.take(i + 1)).last() == baseline@[i as int]@);
        if !slice_contains(new, &baseline[i]) {
            let c = BreakingChange::ContractRemoved {
                function: String::from_str(function),
                kind: String::from_str(kind),
                expr: baseline[i].clone(),
            };
            let ghost before = change_views(changes@);
            changes.push(c);
            assert(change_views(changes@) =~= before.push(c@));
        }
        i += 1;
    }
    assert(baseline@.take(baseline@.len() as int) =~= baseline@);
}

/// Append a `ContractAdded` for each expression of `new` that `baseline`
/// does not contain.
pub fn add_contracts(
    changes: &mut Vec<BreakingChange>,
    function: &str,
    kind: &str,
    baseline: &[String],
    new: &[String],
)
    ensures
        change_views(final(changes)@) == change_views(old(changes)@) + added_list(
            function@,
            kind@,
            views(baseline@),
            views(new@),
        ),
{
    let ghost start = change_views(changes@);
    let mut i: usize = 0;
    while i < new.len()
        invariant
            i <= new@.len(),
            change_views(changes@) == start + added_list(
                function@,
                kind@,
                views(baseline@),
                views(new@.take(i as int)),
            ),
        decreases new.len() - i,
    {
        assert(views(new@.take(i + 1)).drop_last() =~= views(new@.take(i as int)));
        assert(views(new@.take(i + 1)).last() == new@[i as int]@);
        if !slice_contains(baseline, &new[i]) {
            let c = BreakingChange::ContractAdded {
                function: String::from_str(function),
                kind: String::from_str(kind),
                expr: new[i].clone(),
            };
            let ghost before = change_views(changes@);
            changes.push(c);
            assert(change_views(changes@) =~= before.push(c@));
        }
        i += 1;
    }
    assert(new@.take(new@.len() as int) =~= new@);
}

// ─── laws ───────────────────────────────────────────────────────────────────

proof fn lemma_removed_none(f: Seq<char>, k: Seq<char>, base: Seq<Seq<char>>, new: Seq<Seq<char>>)
    requires
        forall|i: int| 0 <= i < base.len() ==> new.contains(#[trigger] base[i]),
    ensures
        removed_list(f, k, base, new) == Seq::<BreakingChangeView>::empty(),
    decreases base.len(),
{
    if base.len() > 0 {
        assert(new.contains(base[base.len() - 1]));
        assert forall|i: int| 0 <= i < base.drop_last().len() implies new.contains(
            #[trigger] base.drop_last()[i],
        ) by {
            assert(base.drop_last()[i] == base[i]);
        }
        lemma_removed_none(f, k, base.drop_last(), new);
    }
}

proof fn lemma_added_none(f: Seq<char>, k: Seq<char>, base: Seq<Seq<char>>, new: Seq<Seq<char>>)
    requires
        forall|i: int| 0 <= i < new.len() ==> base.contains(#[trigger] new[i]),
    ensures
        added_list(f, k, base, new) == Seq::<BreakingChangeView>::empty(),
    decreases new.len(),
{
    if new.len() > 0 {
        assert(base.contains(new[new.len() - 1]));
        assert forall|i: int| 0 <= i < new.drop_last().len() implies base.contains(
            #[trigger] new.drop_last()[i],
        ) by {
            assert(new.drop_last()[i] == new[i]);
        }
        lemma_added_none(f, k, base, new.drop_last());
    }
}

proof fn lemma_self_contains(x: Seq<Seq<char>>)
    ensures
        forall|i: int| 0 <= i < x.len() ==> x.contains(#[trigger] x[i]),
{
}

proof fn lemma_removal_self(s: Seq<EntryView>, n: int)
    requires
        keys_sorted(s),
        0 <= n <= s.len(),
    ensures
        removal_changes(s, s.take(n)) == Seq::<BreakingChangeView>::empty(),
    decreases n,
{
    if n > 0 {
        let base = s.take(n);
        assert(base.drop_last() =~= s.take(n - 1));
        lemma_removal_self(s, n - 1);
        let (name, b) = base.last();
        assert(base.last() == s[n - 1]);
        lemma_lookup_sorted(s, name, n - 1);
        lemma_self_contains(b.before);
        lemma_self_contains(b.after);
        lemma_self_contains(b.always);
        lemma_removed_none(name, "before"@, b.before, b.before);
        lemma_removed_none(name, "after"@, b.after, b.after);
        lemma_removed_none(name, "always"@, b.always, b.always);
        assert(removal_changes(s, base) =~= Seq::<BreakingChangeView>::empty());
    }
}

proof fn lemma_addition_self(s: Seq<EntryView>, n: int)
    requires
        keys_sorted(s),
        0 <= n <= s.len(),
    ensures
        addition_changes(s.take(n), s) == Seq::<BreakingChangeView>::empty(),
    decreases n,
{
    if n > 0 {
        let cur = s.take(n);
        assert(cur.drop_last() =~= s.take(n - 1));
        lemma_addition_self(s, n - 1);
        let (name, c) = cur.last();
        assert(cur.last() == s[n - 1]);
        lemma_lookup_sorted(s, name, n - 1);
        lemma_self_contains(c.before);
        lemma_self_contains(c.after);
        lemma_self_contains(c.always);
        lemma_added_none(name, "before"@, c.before, c.before);
        lemma_added_none(name, "after"@, c.after, c.after);
        lemma_added_none(name, "always"@, c.always, c.always);
        assert(addition_changes(cur, s) =~= Seq::<BreakingChangeView>::empty());
    }
}

/// A build compared with itself as baseline has no breaking change.
pub proof fn lemma_no_breaking_change_against_itself(s: Seq<EntryView>)
    requires
        keys_sorted(s),
    ensures
        removal_changes(s, s) + addition_changes(s, s) == Seq::<BreakingChangeView>::empty(),
{
    lemma_removal_self(s, s.len() as int);
    lemma_addition_self(s, s.len() as int);
    assert(s.take(s.len() as int) =~= s);
}

/// The function a change is about.
pub open spec fn change_function(c: BreakingChangeView) -> Seq<char> {
    match c {
        BreakingChangeView::FunctionRemoved { name } => name,
        BreakingChangeView::ContractAdded { function, .. } => function,
        BreakingChangeView::ContractRemoved { function, .. } => function,
    }
}

/// `k` is a key of the entries `s`.
pub open spec fn has_key(s: Seq<EntryView>, k: Seq<char>) -> bool {
    exists|i: int| 0 <= i < s.len() && (#[trigger] s[i]).0 == k
}

proof fn lemma_removed_named(f: Seq<char>, k: Seq<char>, base: Seq<Seq<char>>, new: Seq<Seq<char>>)
    ensures
        forall|i: int|
            0 <= i < removed_list(f, k, base, new).len() ==> change_function(
                #[trigger] removed_list(f, k, base, new)[i],
            ) == f,
    decreases base.len(),
{
    if base.len() > 0 {
        lemma_removed_named(f, k, base.drop_last(), new);
        let prev = removed_list(f, k, base.drop_last(), new);
        let all = removed_list(f, k, base, new);
        assert forall|i: int| 0 <= i < all.len() implies change_function(#[trigger] all[i]) == f by {
            if i < prev.len() {
                assert(all[i] == prev[i]);
            }
        }
    }
}

proof fn lemma_added_named(f: Seq<char>, k: Seq<char>, base: Seq<Seq<char>>, new: Seq<Seq<char>>)
    ensures
        forall|i: int|
            0 <= i < added_list(f, k, base, new).len() ==> change_function(
                #[trigger] added_list(f, k, base, new)[i],
            ) == f,
    decreases new.len(),
{
    if new.len() > 0 {
        lemma_added_named(f, k, base, new.drop_last());
        let prev = added_list(f, k, base, new.drop_last());
        let all = added_list(f, k, base, new);
        assert forall|i: int| 0 <= i < all.len() implies change_function(#[trigger] all[i]) == f by {
            if i < prev.len() {
                assert(all[i] == prev[i]);
            }
        }
    }
}

proof fn lemma_concat3_named(a: Seq<BreakingChangeView>, b: Seq<BreakingChangeView>, c: Seq<BreakingChangeView>, f: Seq<char>)
    requires
        forall|i: int| 0 <= i < a.len() ==> change_function(#[trigger] a[i]) == f,
        forall|i: int| 0 <= i < b.len() ==> change_function(#[trigger] b[i]) == f,
        forall|i: int| 0 <= i < c.len() ==> change_function(#[trigger] c[i]) == f,
    ensures
        forall|i: int| 0 <= i < (a + b + c).len() ==> change_function(#[trigger] (a + b + c)[i]) == f,
{
    assert forall|i: int| 0 <= i < (a + b + c).len() implies change_function(#[trigger] (a + b + c)[i]) == f by {
        if i < a.len() {
            assert((a + b + c)[i] == a[i]);
        } else if i < a.len() + b.len() {
            assert((a + b + c)[i] == b[i - a.len()]);
        } else {
            assert((a + b + c)[i] == c[i - a.len() - b.len()]);
        }
    }
}

proof fn lemma_lookup_has_key(s: Seq<EntryView>, k: Seq<char>)
    requires
        lookup(s, k) is Some,
    ensures
        has_key(s, k),
    decreases s.len(),
{
    if lookup(s.drop_last(), k) is Some {
        lemma_lookup_has_key(s.drop_last(), k);
        let i = choose|i: int| 0 <= i < s.drop_last().len() && (#[trigger] s.drop_last()[i]).0 == k;
        assert(s[i] == s.drop_last()[i]);
    } else {
        assert(s[s.len() - 1].0 == k);
    }
}

proof fn lemma_removal_named(cur: Seq<EntryView>, base: Seq<EntryView>)
    ensures
        forall|i: int|
            0 <= i < removal_changes(cur, base).len() ==> has_key(
                base,
                change_function(#[trigger] removal_changes(cur, base)[i]),
            ),
    decreases base.len(),
{
    if base.len() > 0 {
        let prev = base.drop_last();
        lemma_removal_named(cur, prev);
        let (name, b) = base.last();
        let tail = match lookup(cur, name) {
            None => seq![BreakingChangeView::FunctionRemoved { name }],
            Some(n) => removed_list(name, "before"@, b.before, n.before) + removed_list(
                name,
                "after"@,
                b.after,
                n.after,
            ) + removed_list(name, "always"@, b.always, n.always),
        };
        match lookup(cur, name) {
            None => {},
            Some(n) => {
                lemma_removed_named(name, "before"@, b.before, n.before);
                lemma_removed_named(name, "after"@, b.after, n.after);
                lemma_removed_named(name, "always"@, b.always, n.always);
                lemma_concat3_named(
                    removed_list(name, "before"@, b.before, n.before),
                    removed_list(name, "after"@, b.after, n.after),
                    removed_list(name, "always"@, b.always, n.always),
                    name,
                );
            },
        }
        assert(base[base.len() - 1].0 == name);
        let all = removal_changes(cur, base);
        assert(all == removal_changes(cur, prev) + tail);
        assert forall|i: int| 0 <= i < all.len() implies has_key(base, change_function(#[trigger] all[i])) by {
            if i < removal_changes(cur, prev).len() {
                assert(all[i] == removal_changes(cur, prev)[i]);
                let f = change_function(all[i]);
                let j = choose|j: int| 0 <= j < prev.len() && (#[trigger] prev[j]).0 == f;
                assert(base[j] == prev[j]);
            } else {
                assert(all[i] == tail[i - removal_changes(cur, prev).len()]);
            }
        }
    }
}

proof fn lemma_addition_named(cur: Seq<EntryView>, base: Seq<EntryView>)
    ensures
        forall|i: int|
            0 <= i < addition_changes(cur, base).len() ==> has_key(
                base,
                change_function(#[trigger] addition_changes(cur, base)[i]),
            ),
    decreases cur.len(),
{
    if cur.len() > 0 {
        let prev = cur.drop_last();
        lemma_addition_named(prev, base);
        let (name, n) = cur.last();
        let tail = match lookup(base, name) {
            None => seq![],
            Some(b) => added_list(name, "before"@, b.before, n.before) + added_list(
                name,
                "after"@,
                b.after,
                n.after,
            ) + added_list(name, "always"@, b.always, n.always),
        };
        match lookup(base, name) {
            None => {},
            Some(b) => {
                lemma_lookup_has_key(base, name);
                lemma_added_named(name, "before"@, b.before, n.before);
                lemma_added_named(name, "after"@, b.after, n.after);
                lemma_added_named(name, "always"@, b.always, n.always);
                lemma_concat3_named(
                    added_list(name, "before"@, b.before, n.before),
                    added_list(name, "after"@, b.after, n.after),
                    added_list(name, "always"@, b.always, n.always),
                    name,
                );
            },
        }
        let all = addition_changes(cur, base);
        assert(all == addition_changes(prev, base) + tail);
        assert forall|i: int| 0 <= i < all.len() implies has_key(base, change_function(#[trigger] all[i])) by {
            if i < addition_changes(prev, base).len() {
                assert(all[i] == addition_changes(prev, base)[i]);
            } else {
                assert(all[i] == tail[i - addition_changes(prev, base).len()]);
            }
        }
    }
}

/// Every breaking change is about a function of the baseline: a function
/// that only the new build has is never breaking.
pub proof fn lemma_changes_concern_baseline_functions(new: Seq<EntryView>, baseline: Seq<EntryView>)
    ensures
        forall|i: int|
            0 <= i < (removal_changes(new, baseline) + addition_changes(new, baseline)).len()
                ==> has_key(
                baseline,
                change_function(
                    #[trigger] (removal_changes(new, baseline) + addition_changes(new, baseline))[i],
                ),
            ),
{
    lemma_removal_named(new, baseline);
    lemma_addition_named(new, baseline);
    let a = removal_changes(new, baseline);
    let b = addition_changes(new, baseline);
    assert forall|i: int| 0 <= i < (a + b).len() implies has_key(baseline, change_function(#[trigger] (a + b)[i])) by {
        if i < a.len() {
            assert((a + b)[i] == a[i]);
        } else {
            assert((a + b)[i] == b[i - a.len()]);
        }
    }
}

// ─── which changes are reported ─────────────────────────────────────────────

/// `e` is a contract text of kind `kind` (`before`, `after` or `always`)
/// in the record `from` and not in the record `to`.
pub open spec fn lost_text(kind: Seq<char>, e: Seq<char>, from: ContractRecordView, to: ContractRecordView) -> bool {
    ||| kind == "before"@ && from.before.contains(e) && !to.before.contains(e)
    ||| kind == "after"@ && from.after.contains(e) && !to.after.contains(e)
    ||| kind == "always"@ && from.always.contains(e) && !to.always.contains(e)
}

/// `e` is a contract text of kind `kind` in `from` and not in the record
/// `to`, when there is one.
pub open spec fn lost_against(kind: Seq<char>, e: Seq<char>, from: ContractRecordView, to: Option<ContractRecordView>) -> bool {
    to matches Some(t) && lost_text(kind, e, from, t)
}

/// When `c` is a breaking change of the entries `new` against the
/// baseline entries `base`: a baseline function that `new` lacks; a
/// contract of a baseline function that the function's record in `new`
/// lacks; a contract of a function of `new` that the function's baseline
/// record lacks.
pub open spec fn is_breaking(new: Seq<EntryView>, base: Seq<EntryView>, c: BreakingChangeView) -> bool {
    match c {
        BreakingChangeView::FunctionRemoved { name } => has_key(base, name) && lookup(new, name) is None,
        BreakingChangeView::ContractRemoved { function, kind, expr } => exists|j: int|
            0 <= j < base.len() && (#[trigger] base[j]).0 == function && lost_against(kind, expr, base[j].1, lookup(new, function)),
        BreakingChangeView::ContractAdded { function, kind, expr } => exists|j: int|
            0 <= j < new.len() && (#[trigger] new[j]).0 == function && lost_against(kind, expr, new[j].1, lookup(base, function)),
    }
}

proof fn lemma_push_has<A>(s: Seq<A>, x: A, c: A)
    ensures
        s.push(x).contains(c) <==> s.contains(c) || c == x,
{
    if s.contains(c) {
        let i = choose|i: int| 0 <= i < s.len() && s[i] == c;
        assert(s.push(x)[i] == c);
    }
    if c == x {
        assert(s.push(x)[s.len() as int] == c);
    }
    if s.push(x).contains(c) {
        let i = choose|i: int| 0 <= i < s.push(x).len() && s.push(x)[i] == c;
        if i < s.len() {
            assert(s[i] == c);
        }
    }
}

pub proof fn lemma_concat_has<A>(a: Seq<A>, b: Seq<A>, c: A)
    ensures
        (a + b).contains(c) <==> a.contains(c) || b.contains(c),
{
    if a.contains(c) {
        let i = choose|i: int| 0 <= i < a.len() && a[i] == c;
        assert((a + b)[i] == c);
    }
    if b.contains(c) {
        let i = choose|i: int| 0 <= i < b.len() && b[i] == c;
        assert((a + b)[a.len() + i] == c);
    }
    if (a + b).contains(c) {
        let i = choose|i: int| 0 <= i < (a + b).len() && (a + b)[i] == c;
        if i < a.len() {
            assert(a[i] == c);
        } else {
            assert(b[i - a.len()] == c);
        }
    }
}

proof fn lemma_removed_list_has(
    f: Seq<char>,
    k: Seq<char>,
    base: Seq<Seq<char>>,
    new: Seq<Seq<char>>,
    c: BreakingChangeView,
)
    ensures
        removed_list(f, k, base, new).contains(c) <==> (c matches BreakingChangeView::ContractRemoved {
            function,
            kind,
            expr,
        } && function == f && kind == k && base.contains(expr) && !new.contains(expr)),
    decreases base.len(),
{
    if base.len() > 0 {
        let d = base.drop_last();
        lemma_removed_list_has(f, k, d, new, c);
        lemma_push_has(d, base.last(), c->ContractRemoved_expr);
        assert(d.push(base.last()) =~= base);
        if !new.contains(base.last()) {
            lemma_push_has(
                removed_list(f, k, d, new),
                BreakingChangeView::ContractRemoved { function: f, kind: k, expr: base.last() },
                c,
            );
        }
    }
}

proof fn lemma_added_list_has(
    f: Seq<char>,
    k: Seq<char>,
    base: Seq<Seq<char>>,
    new: Seq<Seq<char>>,
    c: BreakingChangeView,
)
    ensures
        added_list(f, k, base, new).contains(c) <==> (c matches BreakingChangeView::ContractAdded {
            function,
            kind,
            expr,
        } && function == f && kind == k && new.contains(expr) && !base.contains(expr)),
    decreases new.len(),
{
    if new.len() > 0 {
        let d = new.drop_last();
        lemma_added_list_has(f, k, base, d, c);
        lemma_push_has(d, new.last(), c->ContractAdded_expr);
        assert(d.push(new.last()) =~= new);
        if !base.contains(new.last()) {
            lemma_push_has(
                added_list(f, k, base, d),
                BreakingChangeView::ContractAdded { function: f, kind: k, expr: new.last() },
                c,
            );
        }
    }
}

proof fn lemma_removal_has(cur: Seq<EntryView>, base: Seq<EntryView>, c: BreakingChangeView)
    ensures
        removal_changes(cur, base).contains(c) <==> (!(c is ContractAdded) && is_breaking(cur, base, c)),
    decreases base.len(),
{
    if base.len() == 0 {
        match c {
            BreakingChangeView::FunctionRemoved { name } => {
                if has_key(base, name) {
                    let j = choose|j: int| 0 <= j < base.len() && (#[trigger] base[j]).0 == name;
                }
            },
            _ => {},
        }
    } else {
        let prev = base.drop_last();
        lemma_removal_has(cur, prev, c);
        let (name, b) = base.last();
        let last = base.len() - 1;
        assert(base[last] == (name, b));
        let tail = match lookup(cur, name) {
            None => seq![BreakingChangeView::FunctionRemoved { name }],
            Some(n) => removed_list(name, "before"@, b.before, n.before) + removed_list(
                name,
                "after"@,
                b.after,
                n.after,
            ) + removed_list(name, "always"@, b.always, n.always),
        };
        assert(removal_changes(cur, base) == removal_changes(cur, prev) + tail);
        lemma_concat_has(removal_changes(cur, prev), tail, c);
        match lookup(cur, name) {
            None => {
                lemma_push_has(Seq::<BreakingChangeView>::empty(), BreakingChangeView::FunctionRemoved { name }, c);
                assert(seq![BreakingChangeView::FunctionRemoved { name }] =~= Seq::<
                    BreakingChangeView,
                >::empty().push(BreakingChangeView::FunctionRemoved { name }));
            },
            Some(n) => {
                let l1 = removed_list(name, "before"@, b.before, n.before);
                let l2 = removed_list(name, "after"@, b.after, n.after);
                let l3 = removed_list(name, "always"@, b.always, n.always);
                lemma_concat_has(l1 + l2, l3, c);
                lemma_concat_has(l1, l2, c);
                lemma_removed_list_has(name, "before"@, b.before, n.before, c);
                lemma_removed_list_has(name, "after"@, b.after, n.after, c);
                lemma_removed_list_has(name, "always"@, b.always, n.always, c);
            },
        }
        match c {
            BreakingChangeView::FunctionRemoved { name: x } => {
                if has_key(base, x) {
                    let j = choose|j: int| 0 <= j < base.len() && (#[trigger] base[j]).0 == x;
                    if j < last {
                        assert(prev[j] == base[j]);
                    }
                }
                if has_key(prev, x) {
                    let j = choose|j: int| 0 <= j < prev.len() && (#[trigger] prev[j]).0 == x;
                    assert(prev[j] == base[j]);
                }
                assert(base[last].0 == name);
            },
            BreakingChangeView::ContractRemoved { function, kind, expr } => {
                if is_breaking(cur, base, c) {
                    let j = choose|j: int|
                        0 <= j < base.len() && (#[trigger] base[j]).0 == function && lost_against(kind, expr, base[j].1, lookup(cur, function));
                    if j < last {
                        assert(prev[j] == base[j]);
                    }
                }
                if is_breaking(cur, prev, c) {
                    let j = choose|j: int|
                        0 <= j < prev.len() && (#[trigger] prev[j]).0 == function && lost_against(kind, expr, prev[j].1, lookup(cur, function));
                    assert(prev[j] == base[j]);
                }
            },
            BreakingChangeView::ContractAdded { .. } => {},
        }
    }
}

proof fn lemma_addition_has(cur: Seq<EntryView>, base: Seq<EntryView>, c: BreakingChangeView)
    ensures
        addition_changes(cur, base).contains(c) <==> (c is ContractAdded && is_breaking(cur, base, c)),
    decreases cur.len(),
{
    if cur.len() > 0 {
        let prev = cur.drop_last();
        lemma_addition_has(prev, base, c);
        let (name, n) = cur.last();
        let last = cur.len() - 1;
        assert(cur[last] == (name, n));
        let tail = match lookup(base, name) {
            None => seq![],
            Some(b) => added_list(name, "before"@, b.before, n.before) + added_list(
                name,
                "after"@,
                b.after,
                n.after,
            ) + added_list(name, "always"@, b.always, n.always),
        };
        assert(addition_changes(cur, base) == addition_changes(prev, base) + tail);
        lemma_concat_has(addition_changes(prev, base), tail, c);
        match lookup(base, name) {
            None => {
                assert(!tail.contains(c));
            },
            Some(b) => {
                let l1 = added_list(name, "before"@, b.before, n.before);
                let l2 = added_list(name, "after"@, b.after, n.after);
                let l3 = added_list(name, "always"@, b.always, n.always);
                lemma_concat_has(l1 + l2, l3, c);
                lemma_concat_has(l1, l2, c);
                lemma_added_list_has(name, "before"@, b.before, n.before, c);
                lemma_added_list_has(name, "after"@, b.after, n.after, c);
                lemma_added_list_has(name, "always"@, b.always, n.always, c);
            },
        }
        match c {
            BreakingChangeView::ContractAdded { function, kind, expr } => {
                if is_breaking(cur, base, c) {
                    let j = choose|j: int|
                        0 <= j < cur.len() && (#[trigger] cur[j]).0 == function && lost_against(kind, expr, cur[j].1, lookup(base, function));
                    if j < last {
                        assert(prev[j] == cur[j]);
                    }
                }
                if is_breaking(prev, base, c) {
                    let j = choose|j: int|
                        0 <= j < prev.len() && (#[trigger] prev[j]).0 == function && lost_against(kind, expr, prev[j].1, lookup(base, function));
                    assert(prev[j] == cur[j]);
                }
            },
            _ => {},
        }
    }
}

/// Exactly the breaking changes are reported: a change is among
/// `breaking_changes` of the new summary `new` against `baseline` if and
/// only if it is a baseline function missing from `new`, a contract of a
/// baseline function missing from the function's new record, or a contract
/// of a new function missing from the function's baseline record.
pub proof fn lemma_breaking_changes_exact(new: Seq<EntryView>, baseline: Seq<EntryView>, c: BreakingChangeView)
    ensures
        (removal_changes(new, baseline) + addition_changes(new, baseline)).contains(c) <==> is_breaking(
            new,
            baseline,
            c,
        ),
{
    lemma_concat_has(removal_changes(new, baseline), addition_changes(new, baseline), c);
    lemma_removal_has(new, baseline, c);
    lemma_addition_has(new, baseline, c);
}

/// Swapping the two summaries swaps removed and added contracts: a
/// contract removed from `a` against baseline `b` is a contract added to
/// `b` against baseline `a`, and the other way round.
pub proof fn lemma_breaking_changes_swap(a: Seq<EntryView>, b: Seq<EntryView>, f: Seq<char>, k: Seq<char>, e: Seq<char>)
    ensures
        (removal_changes(a, b) + addition_changes(a, b)).contains(
            BreakingChangeView::ContractRemoved { function: f, kind: k, expr: e },
        ) <==> (removal_changes(b, a) + addition_changes(b, a)).contains(
            BreakingChangeView::ContractAdded { function: f, kind: k, expr: e },
        ),
{
    lemma_breaking_changes_exact(a, b, BreakingChangeView::ContractRemoved { function: f, kind: k, expr: e });
    lemma_breaking_changes_exact(b, a, BreakingChangeView::ContractAdded { function: f, kind: k, expr: e });
}

} // verus!
