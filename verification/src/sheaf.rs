//! The Čech nerve of contract sections.
//!
//! Only `Do` nodes get a section: their own parsed contracts (kept whole)
//! and the constraints they inherit or are promoted, split at `and`.
//! Overlaps pair a `Do` section with the section of its direct parent, and
//! with each earlier sibling section with which it shares a top-level
//! variable. Sections are ordered by node id, overlaps by `(node_a, node_b)`.

use vstd::prelude::*;

use crate::expr::{
    constraint_views, lemma_constraint_views_index, lemma_constraint_views_take, ConstraintExpr,
    ConstraintView,
};
use crate::checks::distinct;
use crate::model::{
    index_of, lemma_index_of_bounds, parent_of, parents_first, siblings_before_of, AilGraph,
    Contract, InheritedConstraint, Node, NodeId, Pattern, PromotedFact,
};
use crate::scope::{collect_top_level_refs, top_level_refs};
use crate::text::{vec_contains, views};

verus! {

/// The local constraint section of one `Do` node.
#[derive(Debug)]
pub struct SheafSection {
    pub node_id: NodeId,
    pub constraints: Vec<ConstraintExpr>,
    pub inherited: Vec<ConstraintExpr>,
}

/// Two related sections and their combined constraints (`node_a`'s, then
/// `node_b`'s). For a parent-child pair `node_a` is the parent; for siblings
/// it is the earlier sibling.
#[derive(Debug)]
pub struct SheafOverlap {
    pub node_a: NodeId,
    pub node_b: NodeId,
    pub combined: Vec<ConstraintExpr>,
}

/// Sections (ordered by node id) and overlaps (ordered by `(node_a, node_b)`).
#[derive(Debug)]
pub struct CechNerve {
    pub sections: Vec<SheafSection>,
    pub overlaps: Vec<SheafOverlap>,
}

/// The content of a section.
pub struct SectionView {
    pub node_id: NodeId,
    pub constraints: Seq<ConstraintView>,
    pub inherited: Seq<ConstraintView>,
}

/// The content of an overlap.
pub struct OverlapView {
    pub node_a: NodeId,
    pub node_b: NodeId,
    pub combined: Seq<ConstraintView>,
}

impl View for SheafSection {
    type V = SectionView;

    open spec fn view(&self) -> SectionView {
        SectionView {
            node_id: self.node_id,
            constraints: constraint_views(self.constraints@),
            inherited: constraint_views(self.inherited@),
        }
    }
}

impl View for SheafOverlap {
    type V = OverlapView;

    open spec fn view(&self) -> OverlapView {
        OverlapView {
            node_a: self.node_a,
            node_b: self.node_b,
            combined: constraint_views(self.combined@),
        }
    }
}

/// The views of a sequence of sections.
pub open spec fn section_views(s: Seq<SheafSection>) -> Seq<SectionView> {
    s.map_values(|x: SheafSection| x@)
}

/// The views of a sequence of overlaps.
pub open spec fn overlap_views(s: Seq<SheafOverlap>) -> Seq<OverlapView> {
    s.map_values(|x: SheafOverlap| x@)
}

// ─── and-splitting ──────────────────────────────────────────────────────────

/// The conjuncts of `c`: an `And` is flattened recursively, anything else
/// is its own single conjunct.
pub open spec fn and_split(c: ConstraintView) -> Seq<ConstraintView>
    decreases c,
{
    match c {
        ConstraintView::And(children) => and_split_list(children),
        _ => seq![c],
    }
}

/// `and_split` of each element, concatenated.
pub open spec fn and_split_list(cs: Seq<ConstraintView>) -> Seq<ConstraintView>
    decreases cs,
{
    if cs.len() == 0 {
        seq![]
    } else {
        and_split_list(cs.drop_last()) + and_split(cs.last())
    }
}

/// Append the conjuncts of `expr` (copies) to `out`.
fn push_and_split(expr: &ConstraintExpr, out: &mut Vec<ConstraintExpr>)
    ensures
        constraint_views(final(out)@) == constraint_views(old(out)@) + and_split(expr@),
    decreases expr,
{
    let ghost start = constraint_views(out@);
    match expr {
        ConstraintExpr::And(children) => {
            push_and_split_all(children, out);
        },
        _ => {
            let d = expr.duplicate();
            let ghost before = out@;
            out.push(d);
            assert(out@.drop_last() =~= before);
            assert(constraint_views(out@) =~= start + and_split(expr@));
        },
    }
}

fn push_and_split_all(children: &Vec<ConstraintExpr>, out: &mut Vec<ConstraintExpr>)
    ensures
        constraint_views(final(out)@) == constraint_views(old(out)@) + and_split_list(
            constraint_views(children@),
        ),
    decreases children,
{
    let ghost start = constraint_views(out@);
    let mut i: usize = 0;
    assert(constraint_views(children@.take(0)) =~= seq![]);
    while i < children.len()
        invariant
            i <= children@.len(),
            constraint_views(out@) == start + and_split_list(
                constraint_views(children@.take(i as int)),
            ),
        decreases children.len() - i,
    {
        assert(children@.take(i + 1).drop_last() =~= children@.take(i as int));
        assert(constraint_views(children@.take(i + 1)).drop_last() == constraint_views(
            children@.take(i as int),
        ));
        push_and_split(&children[i], out);
        assert(constraint_views(out@) =~= start + and_split_list(
            constraint_views(children@.take(i + 1)),
        ));
        i += 1;
    }
    assert(children@.take(children@.len() as int) =~= children@);
}

/// The conjuncts of `expr`, as copies.
pub fn and_split_expr(expr: &ConstraintExpr) -> (r: Vec<ConstraintExpr>)
    ensures
        constraint_views(r@) == and_split(expr@),
{
    let mut out: Vec<ConstraintExpr> = Vec::new();
    push_and_split(expr, &mut out);
    assert(constraint_views(out@) =~= seq![] + and_split(expr@));
    out
}

// ─── sections ───────────────────────────────────────────────────────────────

/// The parsed contracts among `cs` (all kinds), in order; unparsable ones
/// are skipped.
pub open spec fn parsed_contracts(cs: Seq<Contract>) -> Seq<ConstraintView>
    decreases cs.len(),
{
    if cs.len() == 0 {
        seq![]
    } else {
        match cs.last().parsed {
            Ok(e) => parsed_contracts(cs.drop_last()).push(e@),
            Err(_) => parsed_contracts(cs.drop_last()),
        }
    }
}

/// The conjuncts of the parsed inherited constraints.
pub open spec fn split_inherited(cs: Seq<InheritedConstraint>) -> Seq<ConstraintView>
    decreases cs.len(),
{
    if cs.len() == 0 {
        seq![]
    } else {
        match cs.last().parsed {
            Ok(e) => split_inherited(cs.drop_last()) + and_split(e@),
            Err(_) => split_inherited(cs.drop_last()),
        }
    }
}

/// The conjuncts of the parsed promoted facts.
pub open spec fn split_promoted(fs: Seq<PromotedFact>) -> Seq<ConstraintView>
    decreases fs.len(),
{
    if fs.len() == 0 {
        seq![]
    } else {
        match fs.last().parsed {
            Ok(e) => split_promoted(fs.drop_last()) + and_split(e@),
            Err(_) => split_promoted(fs.drop_last()),
        }
    }
}

/// The constraints a node inherits: split inherited constraints, then split
/// promoted facts; none without a context packet.
pub open spec fn inherited_of(n: Node) -> Seq<ConstraintView> {
    match n.context {
        Some(p) => split_inherited(p.inherited_constraints@) + split_promoted(p.promoted_facts@),
        None => seq![],
    }
}

/// The section of a node.
pub open spec fn section_of(n: Node) -> SectionView {
    SectionView {
        node_id: n.id,
        constraints: parsed_contracts(n.contracts@),
        inherited: inherited_of(n),
    }
}

/// Number of leading sections whose id is below `id`.
pub open spec fn section_pos(s: Seq<SectionView>, id: NodeId) -> int
    decreases s.len(),
{
    if s.len() == 0 || s[0].node_id >= id {
        0
    } else {
        1 + section_pos(s.drop_first(), id)
    }
}

/// The sections of the `Do` nodes among `nodes`, ordered by node id.
pub open spec fn sections_of(nodes: Seq<Node>) -> Seq<SectionView>
    decreases nodes.len(),
{
    if nodes.len() == 0 {
        seq![]
    } else if nodes.last().pattern == Pattern::Do {
        let s = sections_of(nodes.drop_last());
        s.insert(section_pos(s, nodes.last().id), section_of(nodes.last()))
    } else {
        sections_of(nodes.drop_last())
    }
}

/// Parse every contract of `node`, skipping those that did not parse.
pub fn parse_node_contracts(node: &Node) -> (r: Vec<ConstraintExpr>)
    ensures
        constraint_views(r@) == parsed_contracts(node.contracts@),
{
    let cs = &node.contracts;
    let mut out: Vec<ConstraintExpr> = Vec::new();
    let mut i: usize = 0;
    while i < cs.len()
        invariant
            i <= cs@.len(),
            constraint_views(out@) == parsed_contracts(cs@.take(i as int)),
        decreases cs.len() - i,
    {
        assert(cs@.take(i + 1).drop_last() =~= cs@.take(i as int));
        match &cs[i].parsed {
            Ok(e) => {
                let d = e.duplicate();
                let ghost before = out@;
                out.push(d);
                assert(out@.drop_last() =~= before);
            },
            Err(_) => {},
        }
        i += 1;
    }
    assert(cs@.take(cs@.len() as int) =~= cs@);
    out
}

/// The inherited constraints and promoted facts of `node`, each split into
/// its conjuncts.
pub fn collect_inherited_for_node(node: &Node) -> (r: Vec<ConstraintExpr>)
    ensures
        constraint_views(r@) == inherited_of(*node),
{
    let mut out: Vec<ConstraintExpr> = Vec::new();
    match &node.context {
        None => {
            assert(constraint_views(out@) =~= seq![]);
        },
        Some(packet) => {
            let ics = &packet.inherited_constraints;
            let mut i: usize = 0;
            assert(constraint_views(out@) =~= seq![]);
            while i < ics.len()
                invariant
                    i <= ics@.len(),
                    constraint_views(out@) == split_inherited(ics@.take(i as int)),
                decreases ics.len() - i,
            {
                assert(ics@.take(i + 1).drop_last() =~= ics@.take(i as int));
                match &ics[i].parsed {
                    Ok(e) => push_and_split(e, &mut out),
                    Err(_) => {},
                }
                i += 1;
            }
            assert(ics@.take(ics@.len() as int) =~= ics@);
            let ghost mid = constraint_views(out@);
            let pfs = &packet.promoted_facts;
            let mut j: usize = 0;
            while j < pfs.len()
                invariant
                    j <= pfs@.len(),
                    constraint_views(out@) == mid + split_promoted(pfs@.take(j as int)),
                decreases pfs.len() - j,
            {
                assert(pfs@.take(j + 1).drop_last() =~= pfs@.take(j as int));
                match &pfs[j].parsed {
                    Ok(e) => push_and_split(e, &mut out),
                    Err(_) => {},
                }
                assert(constraint_views(out@) =~= mid + split_promoted(pfs@.take(j + 1)));
                j += 1;
            }
            assert(pfs@.take(pfs@.len() as int) =~= pfs@);
        },
    }
    out
}

/// The section of `node`.
pub fn build_section_from_node(node: &Node) -> (s: SheafSection)
    ensures
        s@ == section_of(*node),
{
    SheafSection {
        node_id: node.id,
        constraints: parse_node_contracts(node),
        inherited: collect_inherited_for_node(node),
    }
}

proof fn lemma_section_pos(s: Seq<SectionView>, id: NodeId)
    ensures
        0 <= section_pos(s, id) <= s.len(),
        forall|k: int| 0 <= k < section_pos(s, id) ==> s[k].node_id < id,
        section_pos(s, id) < s.len() ==> s[section_pos(s, id)].node_id >= id,
    decreases s.len(),
{
    if s.len() > 0 && s[0].node_id < id {
        lemma_section_pos(s.drop_first(), id);
        assert forall|k: int| 0 <= k < section_pos(s, id) implies s[k].node_id < id by {
            if k > 0 {
                assert(s[k] == s.drop_first()[k - 1]);
            }
        }
    }
}

/// Insert `sec` into `v` (ordered by id) at its place.
fn insert_section(v: &mut Vec<SheafSection>, sec: SheafSection)
    ensures
        section_views(final(v)@) == section_views(old(v)@).insert(
            section_pos(section_views(old(v)@), sec.node_id),
            sec@,
        ),
{
    let ghost s = section_views(v@);
    proof {
        lemma_section_pos(s, sec.node_id);
    }
    let mut p: usize = 0;
    while p < v.len() && v[p].node_id < sec.node_id
        invariant
            s == section_views(v@),
            p <= v@.len(),
            forall|k: int| 0 <= k < p ==> s[k].node_id < sec.node_id,
        decreases v.len() - p,
    {
        p += 1;
    }
    proof {
        lemma_section_pos(s, sec.node_id);
        assert(p == section_pos(s, sec.node_id)) by {
            if p < section_pos(s, sec.node_id) {
                assert(s[p as int].node_id < sec.node_id);
            }
        }
    }
    let ghost x = sec@;
    v.insert(p, sec);
    assert(section_views(v@) =~= s.insert(p as int, x));
}

/// The sections of every `Do` node of `graph`, ordered by node id.
pub fn build_sections(graph: &AilGraph) -> (r: Vec<SheafSection>)
    ensures
        section_views(r@) == sections_of(graph@),
{
    let nodes = graph.all_nodes();
    let mut out: Vec<SheafSection> = Vec::new();
    let mut i: usize = 0;
    assert(section_views(out@) =~= seq![]);
    while i < nodes.len()
        invariant
            nodes@ == graph@,
            i <= nodes@.len(),
            section_views(out@) == sections_of(nodes@.take(i as int)),
        decreases nodes.len() - i,
    {
        assert(nodes@.take(i + 1).drop_last() =~= nodes@.take(i as int));
        if nodes[i].pattern == Pattern::Do {
            let sec = build_section_from_node(&nodes[i]);
            insert_section(&mut out, sec);
        }
        i += 1;
    }
    assert(nodes@.take(nodes@.len() as int) =~= nodes@);
    out
}

// ─── variables ──────────────────────────────────────────────────────────────

/// The top-level names of each constraint, concatenated.
pub open spec fn refs_of_list(cs: Seq<ConstraintView>) -> Seq<Seq<char>>
    decreases cs.len(),
{
    if cs.len() == 0 {
        seq![]
    } else {
        refs_of_list(cs.drop_last()) + top_level_refs(cs.last())
    }
}

/// The names a section's constraints (own and inherited) reference.
pub open spec fn section_vars(x: SectionView) -> Seq<Seq<char>> {
    refs_of_list(x.constraints) + refs_of_list(x.inherited)
}

/// Some name of `a` is also in `b`.
pub open spec fn shares_name(a: Seq<Seq<char>>, b: Seq<Seq<char>>) -> bool {
    exists|i: int| 0 <= i < a.len() && b.contains(#[trigger] a[i])
}

fn push_refs_of(exprs: &Vec<ConstraintExpr>, out: &mut Vec<String>)
    ensures
        views(final(out)@) == views(old(out)@) + refs_of_list(constraint_views(exprs@)),
{
    let ghost start = views(out@);
    let mut i: usize = 0;
    assert(constraint_views(exprs@.take(0)) =~= seq![]);
    while i < exprs.len()
        invariant
            i <= exprs@.len(),
            views(out@) == start + refs_of_list(constraint_views(exprs@.take(i as int))),
        decreases exprs.len() - i,
    {
        assert(exprs@.take(i + 1).drop_last() =~= exprs@.take(i as int));
        assert(constraint_views(exprs@.take(i + 1)).drop_last() == constraint_views(
            exprs@.take(i as int),
        ));
        let refs = collect_top_level_refs(&exprs[i]);
        let mut k: usize = 0;
        let ghost mid = views(out@);
        while k < refs.len()
            invariant
                k <= refs@.len(),
                views(out@) == mid + views(refs@).take(k as int),
            decreases refs.len() - k,
        {
            let ghost before = views(out@);
            out.push(refs[k].clone());
            assert(views(out@) =~= before.push(refs@[k as int]@));
            assert(views(refs@).take(k + 1) =~= views(refs@).take(k as int).push(refs@[k as int]@));
            k += 1;
        }
        assert(views(refs@).take(refs@.len() as int) =~= views(refs@));
        assert(views(out@) =~= start + refs_of_list(constraint_views(exprs@.take(i + 1))));
        i += 1;
    }
    assert(exprs@.take(exprs@.len() as int) =~= exprs@);
}

/// The distinct top-level variable names referenced by `exprs` (outside
/// `old(..)`, excluding quantifier-bound names), in order of first use.
pub fn extract_vars(exprs: &Vec<ConstraintExpr>) -> (r: Vec<String>)
    ensures
        views(r@) == distinct(refs_of_list(constraint_views(exprs@))),
{
    let mut all: Vec<String> = Vec::new();
    push_refs_of(exprs, &mut all);
    assert(views(all@) =~= seq![] + refs_of_list(constraint_views(exprs@)));
    let mut out: Vec<String> = Vec::new();
    let mut i: usize = 0;
    while i < all.len()
        invariant
            i <= all@.len(),
            views(out@) == distinct(views(all@.take(i as int))),
        decreases all.len() - i,
    {
        assert(views(all@.take(i + 1)).drop_last() =~= views(all@.take(i as int)));
        assert(views(all@.take(i + 1)).last() == all@[i as int]@);
        if !vec_contains(&out, &all[i]) {
            let ghost before = views(out@);
            out.push(all[i].clone());
            assert(views(out@) =~= before.push(all@[i as int]@));
        }
        i += 1;
    }
    assert(all@.take(all@.len() as int) =~= all@);
    out
}

fn section_var_list(x: &SheafSection) -> (r: Vec<String>)
    ensures
        views(r@) == section_vars(x@),
{
    let mut out: Vec<String> = Vec::new();
    push_refs_of(&x.constraints, &mut out);
    push_refs_of(&x.inherited, &mut out);
    assert(views(out@) =~= section_vars(x@));
    out
}

fn shares_any(a: &Vec<String>, b: &Vec<String>) -> (r: bool)
    ensures
        r == shares_name(views(a@), views(b@)),
{
    let mut i: usize = 0;
    while i < a.len()
        invariant
            i <= a@.len(),
            forall|k: int| 0 <= k < i ==> !views(b@).contains(#[trigger] views(a@)[k]),
        decreases a.len() - i,
    {
        if vec_contains(b, &a[i]) {
            assert(views(b@).contains(views(a@)[i as int]));
            return true;
        }
        i += 1;
    }
    false
}

// ─── overlaps ───────────────────────────────────────────────────────────────

/// The first section of `s` with id `id`.
pub open spec fn find_section(s: Seq<SectionView>, id: NodeId) -> Option<SectionView>
    decreases s.len(),
{
    if s.len() == 0 {
        None
    } else {
        match find_section(s.drop_last(), id) {
            Some(x) => Some(x),
            None => if s.last().node_id == id {
                Some(s.last())
            } else {
                None
            },
        }
    }
}

/// The combined constraints of two sections: `a`'s own and inherited, then
/// `b`'s own and inherited.
pub open spec fn combined_of(a: SectionView, b: SectionView) -> Seq<ConstraintView> {
    a.constraints + a.inherited + b.constraints + b.inherited
}

/// Parent-child overlaps for each section among `xs`.
pub open spec fn parent_overlaps(
    nodes: Seq<Node>,
    secs: Seq<SectionView>,
    xs: Seq<SectionView>,
) -> Seq<OverlapView>
    decreases xs.len(),
{
    if xs.len() == 0 {
        seq![]
    } else {
        let x = xs.last();
        let rest = parent_overlaps(nodes, secs, xs.drop_last());
        match parent_of(nodes, x.node_id) {
            Some(p) => match find_section(secs, p) {
                Some(ps) => rest.push(
                    OverlapView { node_a: p, node_b: x.node_id, combined: combined_of(ps, x) },
                ),
                None => rest,
            },
            None => rest,
        }
    }
}

/// Sibling overlaps of section `x` with the sections of `sibs` that share a
/// variable with it.
pub open spec fn sibling_overlaps_for(
    secs: Seq<SectionView>,
    x: SectionView,
    sibs: Seq<NodeId>,
) -> Seq<OverlapView>
    decreases sibs.len(),
{
    if sibs.len() == 0 {
        seq![]
    } else {
        let rest = sibling_overlaps_for(secs, x, sibs.drop_last());
        match find_section(secs, sibs.last()) {
            Some(ss) => if shares_name(section_vars(ss), section_vars(x)) {
                rest.push(
                    OverlapView {
                        node_a: sibs.last(),
                        node_b: x.node_id,
                        combined: combined_of(ss, x),
                    },
                )
            } else {
                rest
            },
            None => rest,
        }
    }
}

/// Sibling overlaps for each section among `xs`.
pub open spec fn sibling_overlaps(
    nodes: Seq<Node>,
    secs: Seq<SectionView>,
    xs: Seq<SectionView>,
) -> Seq<OverlapView>
    decreases xs.len(),
{
    if xs.len() == 0 {
        seq![]
    } else {
        sibling_overlaps(nodes, secs, xs.drop_last()) + sibling_overlaps_for(
            secs,
            xs.last(),
            siblings_before_of(nodes, xs.last().node_id),
        )
    }
}

/// `x` orders before or with `y` by `(node_a, node_b)`.
pub open spec fn pair_le(x: OverlapView, y: OverlapView) -> bool {
    x.node_a < y.node_a || (x.node_a == y.node_a && x.node_b <= y.node_b)
}

/// Number of leading overlaps that order before or with `x`.
pub open spec fn pair_pos(s: Seq<OverlapView>, x: OverlapView) -> int
    decreases s.len(),
{
    if s.len() == 0 || !pair_le(s[0], x) {
        0
    } else {
        1 + pair_pos(s.drop_first(), x)
    }
}

/// `s` stably sorted by `(node_a, node_b)`.
pub open spec fn sort_pairs(s: Seq<OverlapView>) -> Seq<OverlapView>
    decreases s.len(),
{
    if s.len() == 0 {
        seq![]
    } else {
        let t = sort_pairs(s.drop_last());
        t.insert(pair_pos(t, s.last()), s.last())
    }
}

/// The overlaps of the graph's nerve, before sorting.
pub open spec fn raw_overlaps(nodes: Seq<Node>) -> Seq<OverlapView> {
    let secs = sections_of(nodes);
    parent_overlaps(nodes, secs, secs) + sibling_overlaps(nodes, secs, secs)
}

/// The Čech nerve of a graph.
pub open spec fn nerve_of(nodes: Seq<Node>) -> (Seq<SectionView>, Seq<OverlapView>) {
    (sections_of(nodes), sort_pairs(raw_overlaps(nodes)))
}

fn find_section_index(secs: &Vec<SheafSection>, id: NodeId) -> (r: Option<usize>)
    ensures
        r matches Some(k) ==> k < secs@.len() && find_section(section_views(secs@), id) == Some(
            secs@[k as int]@,
        ),
        r is None ==> find_section(section_views(secs@), id) is None,
{
    let mut i: usize = 0;
    while i < secs.len()
        invariant
            i <= secs@.len(),
            find_section(section_views(secs@).take(i as int), id) is None,
        decreases secs.len() - i,
    {
        assert(section_views(secs@).take(i + 1).drop_last() =~= section_views(secs@).take(
            i as int,
        ));
        if secs[i].node_id == id {
            proof {
                lemma_find_section_prefix(section_views(secs@), id, i as int);
            }
            return Some(i);
        }
        i += 1;
    }
    assert(section_views(secs@).take(i as int) =~= section_views(secs@));
    None
}

proof fn lemma_find_section_prefix(s: Seq<SectionView>, id: NodeId, i: int)
    requires
        0 <= i < s.len(),
        find_section(s.take(i), id) is None,
        s[i].node_id == id,
    ensures
        find_section(s, id) == Some(s[i]),
    decreases s.len(),
{
    if i < s.len() - 1 {
        assert(s.drop_last().take(i) =~= s.take(i));
        lemma_find_section_prefix(s.drop_last(), id, i);
    } else {
        assert(s.drop_last() =~= s.take(i));
    }
}

/// The combined constraints of `a` then `b`, as copies.
pub fn build_combined(a: &SheafSection, b: &SheafSection) -> (r: Vec<ConstraintExpr>)
    ensures
        constraint_views(r@) == combined_of(a@, b@),
{
    let mut out = duplicate_constraints_of(&a.constraints);
    append_copies(&mut out, &a.inherited);
    append_copies(&mut out, &b.constraints);
    append_copies(&mut out, &b.inherited);
    out
}

fn duplicate_constraints_of(v: &Vec<ConstraintExpr>) -> (r: Vec<ConstraintExpr>)
    ensures
        constraint_views(r@) == constraint_views(v@),
{
    crate::expr::duplicate_constraints(v)
}

fn append_copies(out: &mut Vec<ConstraintExpr>, v: &Vec<ConstraintExpr>)
    ensures
        constraint_views(final(out)@) == constraint_views(old(out)@) + constraint_views(v@),
{
    let ghost start = constraint_views(out@);
    let mut i: usize = 0;
    assert(constraint_views(v@.take(0)) =~= seq![]);
    while i < v.len()
        invariant
            i <= v@.len(),
            constraint_views(out@) == start + constraint_views(v@.take(i as int)),
        decreases v.len() - i,
    {
        assert(v@.take(i + 1).drop_last() =~= v@.take(i as int));
        let d = v[i].duplicate();
        let ghost before = out@;
        out.push(d);
        assert(out@.drop_last() =~= before);
        assert(constraint_views(out@) =~= start + constraint_views(v@.take(i + 1)));
        i += 1;
    }
    assert(v@.take(v@.len() as int) =~= v@);
}

proof fn lemma_pair_pos(s: Seq<OverlapView>, x: OverlapView)
    ensures
        0 <= pair_pos(s, x) <= s.len(),
        forall|k: int| 0 <= k < pair_pos(s, x) ==> pair_le(s[k], x),
        pair_pos(s, x) < s.len() ==> !pair_le(s[pair_pos(s, x)], x),
    decreases s.len(),
{
    if s.len() > 0 && pair_le(s[0], x) {
        lemma_pair_pos(s.drop_first(), x);
        assert forall|k: int| 0 <= k < pair_pos(s, x) implies pair_le(s[k], x) by {
            if k > 0 {
                assert(s[k] == s.drop_first()[k - 1]);
            }
        }
    }
}

/// Insert `o` into `v` after every overlap that orders before or with it.
fn insert_overlap(v: &mut Vec<SheafOverlap>, o: SheafOverlap)
    ensures
        overlap_views(final(v)@) == overlap_views(old(v)@).insert(
            pair_pos(overlap_views(old(v)@), o@),
            o@,
        ),
{
    let ghost s = overlap_views(v@);
    let ghost x = o@;
    let mut p: usize = 0;
    while p < v.len() && (v[p].node_a < o.node_a || (v[p].node_a == o.node_a && v[p].node_b
        <= o.node_b))
        invariant
            s == overlap_views(v@),
            x == o@,
            p <= v@.len(),
            forall|k: int| 0 <= k < p ==> pair_le(s[k], x),
        decreases v.len() - p,
    {
        p += 1;
    }
    proof {
        lemma_pair_pos(s, x);
        assert(p == pair_pos(s, x)) by {
            if p < pair_pos(s, x) {
                assert(pair_le(s[p as int], x));
            }
        }
    }
    v.insert(p, o);
    assert(overlap_views(v@) =~= s.insert(p as int, x));
}

/// Build the Čech nerve of `graph`: a section for every `Do` node (ordered by
/// id), a parent-child overlap for every `Do` section whose direct parent has
/// a section, and a sibling overlap for every earlier sibling section that
/// shares a top-level variable; overlaps ordered by `(node_a, node_b)`.
pub fn build_nerve(graph: &AilGraph) -> (n: CechNerve)
    ensures
        section_views(n.sections@) == nerve_of(graph@).0,
        overlap_views(n.overlaps@) == nerve_of(graph@).1,
{
    let sections = build_sections(graph);
    let ghost secs = section_views(sections@);
    let mut overlaps: Vec<SheafOverlap> = Vec::new();
    let ghost mut raw: Seq<OverlapView> = seq![];
    assert(overlap_views(overlaps@) =~= sort_pairs(raw));
    // Parent-child overlaps, direct only.
    let mut i: usize = 0;
    while i < sections.len()
        invariant
            secs == section_views(sections@),
            secs == sections_of(graph@),
            i <= sections@.len(),
            raw == parent_overlaps(graph@, secs, secs.take(i as int)),
            overlap_views(overlaps@) == sort_pairs(raw),
        decreases sections.len() - i,
    {
        assert(secs.take(i + 1).drop_last() =~= secs.take(i as int));
        assert(secs.take(i + 1).last() == sections@[i as int]@);
        let id = sections[i].node_id;
        match graph.parent(id) {
            Some(p) => match find_section_index(&sections, p) {
                Some(k) => {
                    let o = SheafOverlap {
                        node_a: p,
                        node_b: id,
                        combined: build_combined(&sections[k], &sections[i]),
                    };
                    proof {
                        assert(raw.push(o@).drop_last() =~= raw);
                        raw = raw.push(o@);
                    }
                    insert_overlap(&mut overlaps, o);
                },
                None => {},
            },
            None => {},
        }
        i += 1;
    }
    assert(secs.take(secs.len() as int) =~= secs);
    let ghost parents = raw;
    // Sibling overlaps, only when a variable is shared.
    let mut j: usize = 0;
    while j < sections.len()
        invariant
            secs == section_views(sections@),
            secs == sections_of(graph@),
            j <= sections@.len(),
            parents == parent_overlaps(graph@, secs, secs),
            raw == parents + sibling_overlaps(graph@, secs, secs.take(j as int)),
            overlap_views(overlaps@) == sort_pairs(raw),
        decreases sections.len() - j,
    {
        assert(secs.take(j + 1).drop_last() =~= secs.take(j as int));
        assert(secs.take(j + 1).last() == sections@[j as int]@);
        let id = sections[j].node_id;
        let sibs = graph.siblings_before(id);
        let vars_s = section_var_list(&sections[j]);
        let ghost base = raw;
        let mut t: usize = 0;
        while t < sibs.len()
            invariant
                secs == section_views(sections@),
                j < sections@.len(),
                id == sections@[j as int].node_id,
                views(vars_s@) == section_vars(sections@[j as int]@),
                t <= sibs@.len(),
                raw == base + sibling_overlaps_for(secs, sections@[j as int]@, sibs@.take(t as int)),
                overlap_views(overlaps@) == sort_pairs(raw),
            decreases sibs.len() - t,
        {
            assert(sibs@.take(t + 1).drop_last() =~= sibs@.take(t as int));
            match find_section_index(&sections, sibs[t]) {
                Some(k) => {
                    let vars_sib = section_var_list(&sections[k]);
                    if shares_any(&vars_sib, &vars_s) {
                        let o = SheafOverlap {
                            node_a: sibs[t],
                            node_b: id,
                            combined: build_combined(&sections[k], &sections[j]),
                        };
                        proof {
                            assert(raw.push(o@).drop_last() =~= raw);
                            raw = raw.push(o@);
                        }
                        insert_overlap(&mut overlaps, o);
                    }
                },
                None => {},
            }
            assert(raw == base + sibling_overlaps_for(
                secs,
                sections@[j as int]@,
                sibs@.take(t + 1),
            ));
            t += 1;
        }
        assert(sibs@.take(sibs@.len() as int) =~= sibs@);
        assert(raw =~= parents + sibling_overlaps(graph@, secs, secs.take(j + 1)));
        j += 1;
    }
    CechNerve { sections, overlaps }
}

// ─── subtree scoping ────────────────────────────────────────────────────────

/// The node at index `i` is `root` or a descendant of it.
pub open spec fn reaches_at(nodes: Seq<Node>, root: NodeId, i: int) -> bool
    decreases i,
{
    if i < 0 || i >= nodes.len() {
        false
    } else if nodes[i].id == root {
        true
    } else {
        match nodes[i].parent {
            None => false,
            Some(p) => {
                let j = index_of(nodes, p);
                0 <= j < i && reaches_at(nodes, root, j)
            },
        }
    }
}

/// `id` is `root` or one of its descendants.
pub open spec fn in_subtree(nodes: Seq<Node>, root: NodeId, id: NodeId) -> bool {
    id == root || reaches_at(nodes, root, index_of(nodes, id))
}

/// Keep the sections whose node is in the subtree.
pub open spec fn filter_sections(nodes: Seq<Node>, root: NodeId, s: Seq<SectionView>) -> Seq<
    SectionView,
>
    decreases s.len(),
{
    if s.len() == 0 {
        seq![]
    } else if in_subtree(nodes, root, s.last().node_id) {
        filter_sections(nodes, root, s.drop_last()).push(s.last())
    } else {
        filter_sections(nodes, root, s.drop_last())
    }
}

/// Keep the overlaps whose two nodes are both in the subtree.
pub open spec fn filter_overlaps(nodes: Seq<Node>, root: NodeId, s: Seq<OverlapView>) -> Seq<
    OverlapView,
>
    decreases s.len(),
{
    if s.len() == 0 {
        seq![]
    } else if in_subtree(nodes, root, s.last().node_a) && in_subtree(nodes, root, s.last().node_b) {
        filter_overlaps(nodes, root, s.drop_last()).push(s.last())
    } else {
        filter_overlaps(nodes, root, s.drop_last())
    }
}

/// Membership flags of the subtree rooted at `root`, one per node.
fn collect_subtree(graph: &AilGraph, root: NodeId) -> (flags: Vec<bool>)
    ensures
        flags@.len() == graph@.len(),
        forall|k: int| 0 <= k < flags@.len() ==> flags@[k] == reaches_at(graph@, root, k),
{
    graph.assert_well_formed();
    let nodes = graph.all_nodes();
    let mut flags: Vec<bool> = Vec::new();
    let mut i: usize = 0;
    while i < nodes.len()
        invariant
            nodes@ == graph@,
            parents_first(nodes@),
            i <= nodes@.len(),
            flags@.len() == i,
            forall|k: int| 0 <= k < i ==> flags@[k] == reaches_at(nodes@, root, k),
        decreases nodes.len() - i,
    {
        let f = if nodes[i].id == root {
            true
        } else {
            match nodes[i].parent {
                None => false,
                Some(p) => {
                    proof {
                        assert(nodes@[i as int].parent is Some);
                        lemma_index_of_bounds(nodes@, p);
                    }
                    match graph.index_of(p) {
                        Some(j) => j < i && flags[j],
                        None => false,
                    }
                },
            }
        };
        flags.push(f);
        i += 1;
    }
    flags
}

fn subtree_contains(graph: &AilGraph, flags: &Vec<bool>, root: NodeId, id: NodeId) -> (b: bool)
    requires
        flags@.len() == graph@.len(),
        forall|k: int| 0 <= k < flags@.len() ==> flags@[k] == reaches_at(graph@, root, k),
    ensures
        b == in_subtree(graph@, root, id),
{
    if id == root {
        return true;
    }
    match graph.index_of(id) {
        Some(k) => {
            proof {
                lemma_index_of_bounds(graph@, id);
            }
            flags[k]
        },
        None => false,
    }
}

/// Copy of a section.
pub fn duplicate_section(s: &SheafSection) -> (r: SheafSection)
    ensures
        r@ == s@,
{
    SheafSection {
        node_id: s.node_id,
        constraints: crate::expr::duplicate_constraints(&s.constraints),
        inherited: crate::expr::duplicate_constraints(&s.inherited),
    }
}

/// Copy of an overlap.
pub fn duplicate_overlap(o: &SheafOverlap) -> (r: SheafOverlap)
    ensures
        r@ == o@,
{
    SheafOverlap {
        node_a: o.node_a,
        node_b: o.node_b,
        combined: crate::expr::duplicate_constraints(&o.combined),
    }
}

/// Restrict `nerve` to the subtree of `graph` rooted at `root` (`root`
/// included, even when it is not in the graph): sections whose node is in
/// the subtree, and overlaps whose two nodes both are, in their order.
pub fn filter_to_subtree(nerve: &CechNerve, root: NodeId, graph: &AilGraph) -> (r: CechNerve)
    ensures
        section_views(r.sections@) == filter_sections(graph@, root, section_views(nerve.sections@)),
        overlap_views(r.overlaps@) == filter_overlaps(graph@, root, overlap_views(nerve.overlaps@)),
{
    let flags = collect_subtree(graph, root);
    let secs = &nerve.sections;
    let mut sections: Vec<SheafSection> = Vec::new();
    let mut i: usize = 0;
    while i < secs.len()
        invariant
            flags@.len() == graph@.len(),
            forall|k: int| 0 <= k < flags@.len() ==> flags@[k] == reaches_at(graph@, root, k),
            i <= secs@.len(),
            section_views(sections@) == filter_sections(
                graph@,
                root,
                section_views(secs@).take(i as int),
            ),
        decreases secs.len() - i,
    {
        assert(section_views(secs@).take(i + 1).drop_last() =~= section_views(secs@).take(
            i as int,
        ));
        if subtree_contains(graph, &flags, root, secs[i].node_id) {
            let d = duplicate_section(&secs[i]);
            let ghost before = section_views(sections@);
            sections.push(d);
            assert(section_views(sections@) =~= before.push(secs@[i as int]@));
        }
        i += 1;
    }
    assert(section_views(secs@).take(secs@.len() as int) =~= section_views(secs@));
    let ovs = &nerve.overlaps;
    let mut overlaps: Vec<SheafOverlap> = Vec::new();
    let mut j: usize = 0;
    while j < ovs.len()
        invariant
            flags@.len() == graph@.len(),
            forall|k: int| 0 <= k < flags@.len() ==> flags@[k] == reaches_at(graph@, root, k),
            j <= ovs@.len(),
            overlap_views(overlaps@) == filter_overlaps(
                graph@,
                root,
                overlap_views(ovs@).take(j as int),
            ),
        decreases ovs.len() - j,
    {
        assert(overlap_views(ovs@).take(j + 1).drop_last() =~= overlap_views(ovs@).take(j as int));
        if subtree_contains(graph, &flags, root, ovs[j].node_a) && subtree_contains(
            graph,
            &flags,
            root,
            ovs[j].node_b,
        ) {
            let d = duplicate_overlap(&ovs[j]);
            let ghost before = overlap_views(overlaps@);
            overlaps.push(d);
            assert(overlap_views(overlaps@) =~= before.push(ovs@[j as int]@));
        }
        j += 1;
    }
    assert(overlap_views(ovs@).take(ovs@.len() as int) =~= overlap_views(ovs@));
    CechNerve { sections, overlaps }
}

// ─── laws of the nerve ──────────────────────────────────────────────────────

/// Sections ordered by node id.
pub open spec fn sections_sorted(s: Seq<SectionView>) -> bool {
    forall|i: int, j: int| 0 <= i < j < s.len() ==> (#[trigger] s[i]).node_id <= (#[trigger] s[j]).node_id
}

/// Overlaps ordered by `(node_a, node_b)`.
pub open spec fn overlaps_sorted(s: Seq<OverlapView>) -> bool {
    forall|i: int, j: int| 0 <= i < j < s.len() ==> pair_le(#[trigger] s[i], #[trigger] s[j])
}

proof fn lemma_section_pos_sorted(s: Seq<SectionView>, id: NodeId)
    requires
        sections_sorted(s),
    ensures
        0 <= section_pos(s, id) <= s.len(),
        forall|k: int| 0 <= k < section_pos(s, id) ==> (#[trigger] s[k]).node_id < id,
        forall|k: int| section_pos(s, id) <= k < s.len() ==> (#[trigger] s[k]).node_id >= id,
    decreases s.len(),
{
    if s.len() > 0 && s[0].node_id < id {
        let t = s.drop_first();
        assert forall|i: int, j: int| 0 <= i < j < t.len() implies (#[trigger] t[i]).node_id
            <= (#[trigger] t[j]).node_id by {
            assert(t[i] == s[i + 1] && t[j] == s[j + 1]);
        }
        lemma_section_pos_sorted(t, id);
        assert forall|k: int| 0 <= k < section_pos(s, id) implies (#[trigger] s[k]).node_id < id by {
            if k > 0 {
                assert(s[k] == t[k - 1]);
            }
        }
        assert forall|k: int| section_pos(s, id) <= k < s.len() implies (#[trigger] s[k]).node_id >= id by {
            assert(s[k] == t[k - 1]);
        }
    } else if s.len() > 0 {
        assert forall|k: int| 0 <= k < s.len() implies (#[trigger] s[k]).node_id >= id by {
            if k > 0 {
                assert(s[0].node_id <= s[k].node_id);
            }
        }
    }
}

/// A section built from a `Do` node of `nodes`.
pub open spec fn is_do_section(nodes: Seq<Node>, x: SectionView) -> bool {
    exists|i: int| 0 <= i < nodes.len() && nodes[i].pattern == Pattern::Do && #[trigger] section_of(nodes[i]) == x
}

/// The ids of `nodes` are distinct.
pub open spec fn ids_distinct(nodes: Seq<Node>) -> bool {
    forall|i: int, j: int| 0 <= i < j < nodes.len() ==> (#[trigger] nodes[i]).id != (#[trigger] nodes[j]).id
}

proof fn lemma_sections_of(nodes: Seq<Node>)
    ensures
        sections_sorted(sections_of(nodes)),
        forall|k: int| 0 <= k < sections_of(nodes).len() ==> is_do_section(nodes, #[trigger] sections_of(nodes)[k]),
        ids_distinct(nodes) ==> forall|i: int, j: int|
            0 <= i < j < sections_of(nodes).len() ==> (#[trigger] sections_of(nodes)[i]).node_id
                != (#[trigger] sections_of(nodes)[j]).node_id,
    decreases nodes.len(),
{
    if nodes.len() > 0 {
        let prev = nodes.drop_last();
        if ids_distinct(nodes) {
            assert forall|i: int, j: int| 0 <= i < j < prev.len() implies (#[trigger] prev[i]).id != (#[trigger] prev[j]).id by {
                assert(prev[i] == nodes[i] && prev[j] == nodes[j]);
            }
        }
        lemma_sections_of(prev);
        let s = sections_of(prev);
        assert forall|k: int| 0 <= k < s.len() implies is_do_section(nodes, #[trigger] s[k]) by {
            let i = choose|i: int| 0 <= i < prev.len() && prev[i].pattern == Pattern::Do && #[trigger] section_of(prev[i]) == s[k];
            assert(nodes[i] == prev[i]);
        }
        if nodes.last().pattern == Pattern::Do {
            let x = section_of(nodes.last());
            let p = section_pos(s, x.node_id);
            lemma_section_pos_sorted(s, x.node_id);
            let t = s.insert(p, x);
            assert(sections_of(nodes) == t);
            assert forall|i: int, j: int| 0 <= i < j < t.len() implies (#[trigger] t[i]).node_id
                <= (#[trigger] t[j]).node_id by {
                if j < p {
                    assert(t[i] == s[i] && t[j] == s[j]);
                } else if j == p {
                    assert(t[i] == s[i]);
                } else if i < p {
                    assert(t[i] == s[i] && t[j] == s[j - 1]);
                } else if i == p {
                    assert(t[j] == s[j - 1]);
                } else {
                    assert(t[i] == s[i - 1] && t[j] == s[j - 1]);
                }
            }
            assert forall|k: int| 0 <= k < t.len() implies is_do_section(nodes, #[trigger] t[k]) by {
                if k < p {
                    assert(t[k] == s[k]);
                } else if k == p {
                    assert(section_of(nodes[nodes.len() - 1]) == t[k]);
                } else {
                    assert(t[k] == s[k - 1]);
                }
            }
            if ids_distinct(nodes) {
                assert forall|k: int| 0 <= k < s.len() implies (#[trigger] s[k]).node_id != x.node_id by {
                    assert(is_do_section(prev, s[k]));
                    let a = choose|a: int| 0 <= a < prev.len() && prev[a].pattern == Pattern::Do && #[trigger] section_of(prev[a]) == s[k];
                    assert(prev[a] == nodes[a]);
                    assert(nodes[a].id != nodes[nodes.len() - 1].id);
                }
                assert forall|i: int, j: int| 0 <= i < j < t.len() implies (#[trigger] t[i]).node_id
                    != (#[trigger] t[j]).node_id by {
                    if j < p {
                        assert(t[i] == s[i] && t[j] == s[j]);
                    } else if j == p {
                        assert(t[i] == s[i]);
                    } else if i < p {
                        assert(t[i] == s[i] && t[j] == s[j - 1]);
                    } else if i == p {
                        assert(t[j] == s[j - 1]);
                    } else {
                        assert(t[i] == s[i - 1] && t[j] == s[j - 1]);
                    }
                }
            }
        }
    }
}

proof fn lemma_pair_pos_sorted(s: Seq<OverlapView>, x: OverlapView)
    requires
        overlaps_sorted(s),
    ensures
        0 <= pair_pos(s, x) <= s.len(),
        forall|k: int| 0 <= k < pair_pos(s, x) ==> pair_le(#[trigger] s[k], x),
        forall|k: int| pair_pos(s, x) <= k < s.len() ==> pair_le(x, #[trigger] s[k]),
    decreases s.len(),
{
    if s.len() > 0 && pair_le(s[0], x) {
        let t = s.drop_first();
        assert forall|i: int, j: int| 0 <= i < j < t.len() implies pair_le(#[trigger] t[i], #[trigger] t[j]) by {
            assert(t[i] == s[i + 1] && t[j] == s[j + 1]);
        }
        lemma_pair_pos_sorted(t, x);
        assert forall|k: int| 0 <= k < pair_pos(s, x) implies pair_le(#[trigger] s[k], x) by {
            if k > 0 {
                assert(s[k] == t[k - 1]);
            }
        }
        assert forall|k: int| pair_pos(s, x) <= k < s.len() implies pair_le(x, #[trigger] s[k]) by {
            assert(s[k] == t[k - 1]);
        }
    } else if s.len() > 0 {
        assert forall|k: int| 0 <= k < s.len() implies pair_le(x, #[trigger] s[k]) by {
            if k > 0 {
                assert(pair_le(s[0], s[k]));
            }
        }
    }
}

proof fn lemma_sort_pairs(s: Seq<OverlapView>)
    ensures
        overlaps_sorted(sort_pairs(s)),
        sort_pairs(s).len() == s.len(),
        forall|k: int| 0 <= k < sort_pairs(s).len() ==> s.contains(#[trigger] sort_pairs(s)[k]),
    decreases s.len(),
{
    if s.len() > 0 {
        let prev = s.drop_last();
        lemma_sort_pairs(prev);
        let t = sort_pairs(prev);
        let x = s.last();
        let p = pair_pos(t, x);
        lemma_pair_pos_sorted(t, x);
        let u = t.insert(p, x);
        assert(sort_pairs(s) == u);
        assert forall|i: int, j: int| 0 <= i < j < u.len() implies pair_le(#[trigger] u[i], #[trigger] u[j]) by {
            if j < p {
                assert(u[i] == t[i] && u[j] == t[j]);
            } else if j == p {
                assert(u[i] == t[i]);
            } else if i < p {
                assert(u[i] == t[i] && u[j] == t[j - 1]);
            } else if i == p {
                assert(u[j] == t[j - 1]);
            } else {
                assert(u[i] == t[i - 1] && u[j] == t[j - 1]);
            }
        }
        assert forall|k: int| 0 <= k < u.len() implies s.contains(#[trigger] u[k]) by {
            if k < p {
                assert(u[k] == t[k]);
                assert(prev.contains(t[k]));
                let j = choose|j: int| 0 <= j < prev.len() && prev[j] == t[k];
                assert(s[j] == prev[j]);
            } else if k == p {
                assert(s[s.len() - 1] == u[k]);
            } else {
                assert(u[k] == t[k - 1]);
                assert(prev.contains(t[k - 1]));
                let j = choose|j: int| 0 <= j < prev.len() && prev[j] == t[k - 1];
                assert(s[j] == prev[j]);
            }
        }
    }
}

/// An overlap the nerve may hold: a direct parent with its child, or an
/// earlier sibling with a later one when their sections share a variable
/// name. Both nodes have sections and the combined constraints are theirs.
pub open spec fn overlap_allowed(nodes: Seq<Node>, secs: Seq<SectionView>, o: OverlapView) -> bool {
    &&& find_section(secs, o.node_a) is Some
    &&& find_section(secs, o.node_b) is Some
    &&& o.combined == combined_of(find_section(secs, o.node_a)->0, find_section(secs, o.node_b)->0)
    &&& (parent_of(nodes, o.node_b) == Some(o.node_a) || (siblings_before_of(nodes, o.node_b).contains(
        o.node_a,
    ) && shares_name(
        section_vars(find_section(secs, o.node_a)->0),
        section_vars(find_section(secs, o.node_b)->0),
    )))
}

proof fn lemma_find_section_id(s: Seq<SectionView>, id: NodeId)
    ensures
        find_section(s, id) matches Some(y) ==> y.node_id == id,
    decreases s.len(),
{
    if s.len() > 0 {
        lemma_find_section_id(s.drop_last(), id);
    }
}

proof fn lemma_parent_overlaps(nodes: Seq<Node>, secs: Seq<SectionView>, xs: Seq<SectionView>)
    requires
        forall|k: int| 0 <= k < xs.len() ==> secs.contains(#[trigger] xs[k]),
        forall|k: int| 0 <= k < secs.len() ==> find_section(secs, (#[trigger] secs[k]).node_id) == Some(secs[k]),
    ensures
        forall|k: int| 0 <= k < parent_overlaps(nodes, secs, xs).len() ==> overlap_allowed(
            nodes,
            secs,
            #[trigger] parent_overlaps(nodes, secs, xs)[k],
        ),
    decreases xs.len(),
{
    if xs.len() > 0 {
        let prev = xs.drop_last();
        assert forall|k: int| 0 <= k < prev.len() implies secs.contains(#[trigger] prev[k]) by {
            assert(prev[k] == xs[k]);
        }
        lemma_parent_overlaps(nodes, secs, prev);
        let x = xs.last();
        assert(secs.contains(xs[xs.len() - 1]));
        let j = choose|j: int| 0 <= j < secs.len() && secs[j] == x;
        assert(find_section(secs, secs[j].node_id) == Some(secs[j]));
        let r = parent_overlaps(nodes, secs, prev);
        let all = parent_overlaps(nodes, secs, xs);
        assert forall|k: int| 0 <= k < all.len() implies overlap_allowed(nodes, secs, #[trigger] all[k]) by {
            if k < r.len() {
                assert(all[k] == r[k]);
            } else {
                lemma_find_section_id(secs, parent_of(nodes, x.node_id)->0);
            }
        }
    }
}

proof fn lemma_sibling_overlaps_for(nodes: Seq<Node>, secs: Seq<SectionView>, x: SectionView, sibs: Seq<NodeId>)
    requires
        find_section(secs, x.node_id) == Some(x),
        forall|k: int| 0 <= k < sibs.len() ==> siblings_before_of(nodes, x.node_id).contains(#[trigger] sibs[k]),
    ensures
        forall|k: int| 0 <= k < sibling_overlaps_for(secs, x, sibs).len() ==> overlap_allowed(
            nodes,
            secs,
            #[trigger] sibling_overlaps_for(secs, x, sibs)[k],
        ),
    decreases sibs.len(),
{
    if sibs.len() > 0 {
        let prev = sibs.drop_last();
        assert forall|k: int| 0 <= k < prev.len() implies siblings_before_of(nodes, x.node_id).contains(
            #[trigger] prev[k],
        ) by {
            assert(prev[k] == sibs[k]);
        }
        lemma_sibling_overlaps_for(nodes, secs, x, prev);
        assert(siblings_before_of(nodes, x.node_id).contains(sibs[sibs.len() - 1]));
        lemma_find_section_id(secs, sibs.last());
        let r = sibling_overlaps_for(secs, x, prev);
        let all = sibling_overlaps_for(secs, x, sibs);
        assert forall|k: int| 0 <= k < all.len() implies overlap_allowed(nodes, secs, #[trigger] all[k]) by {
            if k < r.len() {
                assert(all[k] == r[k]);
            }
        }
    }
}

proof fn lemma_sibling_overlaps(nodes: Seq<Node>, secs: Seq<SectionView>, xs: Seq<SectionView>)
    requires
        forall|k: int| 0 <= k < xs.len() ==> secs.contains(#[trigger] xs[k]),
        forall|k: int| 0 <= k < secs.len() ==> find_section(secs, (#[trigger] secs[k]).node_id) == Some(secs[k]),
    ensures
        forall|k: int| 0 <= k < sibling_overlaps(nodes, secs, xs).len() ==> overlap_allowed(
            nodes,
            secs,
            #[trigger] sibling_overlaps(nodes, secs, xs)[k],
        ),
    decreases xs.len(),
{
    if xs.len() > 0 {
        let prev = xs.drop_last();
        assert forall|k: int| 0 <= k < prev.len() implies secs.contains(#[trigger] prev[k]) by {
            assert(prev[k] == xs[k]);
        }
        lemma_sibling_overlaps(nodes, secs, prev);
        let x = xs.last();
        assert(secs.contains(xs[xs.len() - 1]));
        let j = choose|j: int| 0 <= j < secs.len() && secs[j] == x;
        assert(find_section(secs, secs[j].node_id) == Some(secs[j]));
        let sibs = siblings_before_of(nodes, x.node_id);
        lemma_sibling_overlaps_for(nodes, secs, x, sibs);
        let a = sibling_overlaps(nodes, secs, prev);
        let b = sibling_overlaps_for(secs, x, sibs);
        let all = sibling_overlaps(nodes, secs, xs);
        assert(all == a + b);
        assert forall|k: int| 0 <= k < all.len() implies overlap_allowed(nodes, secs, #[trigger] all[k]) by {
            if k < a.len() {
                assert(all[k] == a[k]);
            } else {
                assert(all[k] == b[k - a.len()]);
            }
        }
    }
}

proof fn lemma_find_sorted_unique(s: Seq<SectionView>)
    requires
        forall|i: int, j: int| 0 <= i < j < s.len() ==> (#[trigger] s[i]).node_id != (#[trigger] s[j]).node_id,
    ensures
        forall|k: int| 0 <= k < s.len() ==> find_section(s, (#[trigger] s[k]).node_id) == Some(s[k]),
    decreases s.len(),
{
    if s.len() > 0 {
        let t = s.drop_last();
        assert forall|i: int, j: int| 0 <= i < j < t.len() implies (#[trigger] t[i]).node_id != (#[trigger] t[j]).node_id by {
            assert(t[i] == s[i] && t[j] == s[j]);
        }
        lemma_find_sorted_unique(t);
        assert forall|k: int| 0 <= k < s.len() implies find_section(s, (#[trigger] s[k]).node_id) == Some(s[k]) by {
            if k < s.len() - 1 {
                assert(t[k] == s[k]);
                assert(find_section(t, t[k].node_id) == Some(t[k]));
            } else {
                lemma_find_absent(t, s[k].node_id);
            }
        }
    }
}

proof fn lemma_find_absent(s: Seq<SectionView>, id: NodeId)
    requires
        forall|k: int| 0 <= k < s.len() ==> (#[trigger] s[k]).node_id != id,
    ensures
        find_section(s, id) is None,
    decreases s.len(),
{
    if s.len() > 0 {
        let t = s.drop_last();
        assert forall|k: int| 0 <= k < t.len() implies (#[trigger] t[k]).node_id != id by {
            assert(t[k] == s[k]);
        }
        lemma_find_absent(t, id);
    }
}

/// The nerve of a graph whose node ids are distinct: its sections are the
/// sections of `Do` nodes only, ordered by node id; its overlaps are
/// ordered by `(node_a, node_b)`, and each is either a direct parent with
/// its child or an earlier sibling with a later one whose sections share a
/// variable name, between two nodes that have sections.
pub proof fn lemma_nerve_shape(nodes: Seq<Node>)
    requires
        parents_first(nodes),
    ensures
        sections_sorted(nerve_of(nodes).0),
        forall|k: int| 0 <= k < nerve_of(nodes).0.len() ==> is_do_section(nodes, #[trigger] nerve_of(nodes).0[k]),
        overlaps_sorted(nerve_of(nodes).1),
        forall|k: int| 0 <= k < nerve_of(nodes).1.len() ==> overlap_allowed(
            nodes,
            nerve_of(nodes).0,
            #[trigger] nerve_of(nodes).1[k],
        ),
{
    let secs = sections_of(nodes);
    lemma_sections_of(nodes);
    assert(ids_distinct(nodes)) by {
        assert forall|i: int, j: int| 0 <= i < j < nodes.len() implies (#[trigger] nodes[i]).id != (#[trigger] nodes[j]).id by {}
    }
    lemma_find_sorted_unique(secs);
    assert forall|k: int| 0 <= k < secs.len() implies secs.contains(#[trigger] secs[k]) by {}
    lemma_parent_overlaps(nodes, secs, secs);
    lemma_sibling_overlaps(nodes, secs, secs);
    let raw = raw_overlaps(nodes);
    let a = parent_overlaps(nodes, secs, secs);
    let b = sibling_overlaps(nodes, secs, secs);
    assert forall|k: int| 0 <= k < raw.len() implies overlap_allowed(nodes, secs, #[trigger] raw[k]) by {
        if k < a.len() {
            assert(raw[k] == a[k]);
        } else {
            assert(raw[k] == b[k - a.len()]);
        }
    }
    lemma_sort_pairs(raw);
    let sorted = sort_pairs(raw);
    assert forall|k: int| 0 <= k < sorted.len() implies overlap_allowed(nodes, secs, #[trigger] sorted[k]) by {
        assert(raw.contains(sorted[k]));
        let j = choose|j: int| 0 <= j < raw.len() && raw[j] == sorted[k];
    }
}

/// The overlap of section `x` with its direct parent, when the parent has
/// a section among `secs`.
pub open spec fn parent_overlap(nodes: Seq<Node>, secs: Seq<SectionView>, x: SectionView) -> Option<OverlapView> {
    match parent_of(nodes, x.node_id) {
        Some(p) => match find_section(secs, p) {
            Some(ps) => Some(OverlapView { node_a: p, node_b: x.node_id, combined: combined_of(ps, x) }),
            None => None,
        },
        None => None,
    }
}

/// The overlap of the earlier sibling `a` with section `x`, when `a` has a
/// section among `secs` that shares a variable name with `x`.
pub open spec fn sibling_overlap(secs: Seq<SectionView>, x: SectionView, a: NodeId) -> Option<OverlapView> {
    match find_section(secs, a) {
        Some(sa) => if shares_name(section_vars(sa), section_vars(x)) {
            Some(OverlapView { node_a: a, node_b: x.node_id, combined: combined_of(sa, x) })
        } else {
            None
        },
        None => None,
    }
}

proof fn lemma_insert_has<A>(s: Seq<A>, p: int, x: A, c: A)
    requires
        0 <= p <= s.len(),
    ensures
        s.insert(p, x).contains(c) <==> s.contains(c) || c == x,
{
    let u = s.insert(p, x);
    if s.contains(c) {
        let i = choose|i: int| 0 <= i < s.len() && s[i] == c;
        if i < p {
            assert(u[i] == c);
        } else {
            assert(u[i + 1] == c);
        }
    }
    if c == x {
        assert(u[p] == c);
    }
    if u.contains(c) {
        let i = choose|i: int| 0 <= i < u.len() && u[i] == c;
        if i < p {
            assert(s[i] == c);
        } else if i > p {
            assert(s[i - 1] == c);
        }
    }
}

proof fn lemma_push_has<A>(s: Seq<A>, x: A, c: A)
    ensures
        s.push(x).contains(c) <==> s.contains(c) || c == x,
{
    lemma_insert_has(s, s.len() as int, x, c);
    assert(s.insert(s.len() as int, x) =~= s.push(x));
}

proof fn lemma_sections_complete(nodes: Seq<Node>)
    ensures
        forall|i: int|
            0 <= i < nodes.len() && (#[trigger] nodes[i]).pattern == Pattern::Do ==> sections_of(nodes).contains(
                section_of(nodes[i]),
            ),
    decreases nodes.len(),
{
    if nodes.len() > 0 {
        let prev = nodes.drop_last();
        lemma_sections_complete(prev);
        lemma_sections_of(prev);
        let s = sections_of(prev);
        let last = nodes.len() - 1;
        if nodes[last].pattern == Pattern::Do {
            let pos = section_pos(s, nodes[last].id);
            lemma_section_pos_sorted(s, nodes[last].id);
            assert forall|i: int|
                0 <= i < nodes.len() && (#[trigger] nodes[i]).pattern == Pattern::Do implies sections_of(
                nodes,
            ).contains(section_of(nodes[i])) by {
                lemma_insert_has(s, pos, section_of(nodes[last]), section_of(nodes[i]));
                if i < last {
                    assert(prev[i] == nodes[i]);
                }
            }
        } else {
            assert forall|i: int|
                0 <= i < nodes.len() && (#[trigger] nodes[i]).pattern == Pattern::Do implies sections_of(
                nodes,
            ).contains(section_of(nodes[i])) by {
                assert(prev[i] == nodes[i]);
            }
        }
    }
}

proof fn lemma_sort_pairs_keeps(s: Seq<OverlapView>)
    ensures
        forall|k: int| 0 <= k < s.len() ==> sort_pairs(s).contains(#[trigger] s[k]),
    decreases s.len(),
{
    if s.len() > 0 {
        let prev = s.drop_last();
        lemma_sort_pairs_keeps(prev);
        let t = sort_pairs(prev);
        let p = pair_pos(t, s.last());
        lemma_pair_pos(t, s.last());
        assert forall|k: int| 0 <= k < s.len() implies sort_pairs(s).contains(#[trigger] s[k]) by {
            lemma_insert_has(t, p, s.last(), s[k]);
            if k < s.len() - 1 {
                assert(prev[k] == s[k]);
            }
        }
    }
}

proof fn lemma_parent_overlaps_keep(nodes: Seq<Node>, secs: Seq<SectionView>, xs: Seq<SectionView>)
    ensures
        forall|k: int|
            0 <= k < xs.len() && (#[trigger] parent_overlap(nodes, secs, xs[k])) is Some ==> parent_overlaps(
                nodes,
                secs,
                xs,
            ).contains(parent_overlap(nodes, secs, xs[k])->0),
    decreases xs.len(),
{
    if xs.len() > 0 {
        let prev = xs.drop_last();
        lemma_parent_overlaps_keep(nodes, secs, prev);
        let r = parent_overlaps(nodes, secs, prev);
        assert forall|k: int|
            0 <= k < xs.len() && (#[trigger] parent_overlap(nodes, secs, xs[k])) is Some implies parent_overlaps(
            nodes,
            secs,
            xs,
        ).contains(parent_overlap(nodes, secs, xs[k])->0) by {
            let o = parent_overlap(nodes, secs, xs.last());
            if o is Some {
                lemma_push_has(r, o->0, parent_overlap(nodes, secs, xs[k])->0);
            }
            if k < xs.len() - 1 {
                assert(prev[k] == xs[k]);
            }
        }
    }
}

proof fn lemma_sibling_overlaps_for_keep(secs: Seq<SectionView>, x: SectionView, sibs: Seq<NodeId>)
    ensures
        forall|k: int|
            0 <= k < sibs.len() && (#[trigger] sibling_overlap(secs, x, sibs[k])) is Some
                ==> sibling_overlaps_for(secs, x, sibs).contains(sibling_overlap(secs, x, sibs[k])->0),
    decreases sibs.len(),
{
    if sibs.len() > 0 {
        let prev = sibs.drop_last();
        lemma_sibling_overlaps_for_keep(secs, x, prev);
        let r = sibling_overlaps_for(secs, x, prev);
        assert forall|k: int|
            0 <= k < sibs.len() && (#[trigger] sibling_overlap(secs, x, sibs[k])) is Some
                implies sibling_overlaps_for(secs, x, sibs).contains(sibling_overlap(secs, x, sibs[k])->0) by {
            let o = sibling_overlap(secs, x, sibs.last());
            if o is Some {
                lemma_push_has(r, o->0, sibling_overlap(secs, x, sibs[k])->0);
            }
            if k < sibs.len() - 1 {
                assert(prev[k] == sibs[k]);
            }
        }
    }
}

proof fn lemma_sibling_overlaps_keep(nodes: Seq<Node>, secs: Seq<SectionView>, xs: Seq<SectionView>)
    ensures
        forall|k: int, a: NodeId|
            0 <= k < xs.len() && siblings_before_of(nodes, xs[k].node_id).contains(a) && (#[trigger] sibling_overlap(
                secs,
                xs[k],
                a,
            )) is Some ==> sibling_overlaps(nodes, secs, xs).contains(sibling_overlap(secs, xs[k], a)->0),
    decreases xs.len(),
{
    if xs.len() > 0 {
        let prev = xs.drop_last();
        lemma_sibling_overlaps_keep(nodes, secs, prev);
        let x = xs.last();
        let sibs = siblings_before_of(nodes, x.node_id);
        lemma_sibling_overlaps_for_keep(secs, x, sibs);
        let r = sibling_overlaps(nodes, secs, prev);
        let t = sibling_overlaps_for(secs, x, sibs);
        assert forall|k: int, a: NodeId|
            0 <= k < xs.len() && siblings_before_of(nodes, xs[k].node_id).contains(a) && (#[trigger] sibling_overlap(
                secs,
                xs[k],
                a,
            )) is Some implies sibling_overlaps(nodes, secs, xs).contains(sibling_overlap(secs, xs[k], a)->0) by {
            let o = sibling_overlap(secs, xs[k], a)->0;
            crate::summary::lemma_concat_has(r, t, o);
            if k < xs.len() - 1 {
                assert(prev[k] == xs[k]);
            } else {
                let j = choose|j: int| 0 <= j < sibs.len() && sibs[j] == a;
                assert(sibling_overlap(secs, x, sibs[j]) is Some);
            }
        }
    }
}

/// The nerve is complete: every `Do` node has its section, and no node has
/// two; every section whose direct parent has a section overlaps with it;
/// and every section overlaps with each earlier sibling that has a section
/// sharing a variable name with it, the combined constraints being the two
/// sections' own and inherited constraints, the earlier node's first.
pub proof fn lemma_nerve_complete(nodes: Seq<Node>)
    requires
        parents_first(nodes),
    ensures
        forall|i: int|
            0 <= i < nodes.len() && (#[trigger] nodes[i]).pattern == Pattern::Do ==> nerve_of(nodes).0.contains(
                section_of(nodes[i]),
            ),
        forall|i: int, j: int|
            0 <= i < j < nerve_of(nodes).0.len() ==> (#[trigger] nerve_of(nodes).0[i]).node_id != (
            #[trigger] nerve_of(nodes).0[j]).node_id,
        forall|k: int|
            0 <= k < nerve_of(nodes).0.len() && (#[trigger] parent_overlap(
                nodes,
                nerve_of(nodes).0,
                nerve_of(nodes).0[k],
            )) is Some ==> nerve_of(nodes).1.contains(
                parent_overlap(nodes, nerve_of(nodes).0, nerve_of(nodes).0[k])->0,
            ),
        forall|k: int, a: NodeId|
            0 <= k < nerve_of(nodes).0.len() && siblings_before_of(nodes, nerve_of(nodes).0[k].node_id).contains(a)
                && (#[trigger] sibling_overlap(nerve_of(nodes).0, nerve_of(nodes).0[k], a)) is Some
                ==> nerve_of(nodes).1.contains(sibling_overlap(nerve_of(nodes).0, nerve_of(nodes).0[k], a)->0),
{
    let secs = sections_of(nodes);
    lemma_sections_complete(nodes);
    lemma_sections_of(nodes);
    assert(ids_distinct(nodes)) by {
        assert forall|i: int, j: int| 0 <= i < j < nodes.len() implies (#[trigger] nodes[i]).id != (#[trigger] nodes[j]).id by {}
    }
    lemma_parent_overlaps_keep(nodes, secs, secs);
    lemma_sibling_overlaps_keep(nodes, secs, secs);
    let a = parent_overlaps(nodes, secs, secs);
    let b = sibling_overlaps(nodes, secs, secs);
    let raw = raw_overlaps(nodes);
    lemma_sort_pairs_keeps(raw);
    assert forall|o: OverlapView| raw.contains(o) implies sort_pairs(raw).contains(o) by {
        let j = choose|j: int| 0 <= j < raw.len() && raw[j] == o;
    }
    assert forall|k: int|
        0 <= k < secs.len() && (#[trigger] parent_overlap(nodes, secs, secs[k])) is Some implies sort_pairs(
        raw,
    ).contains(parent_overlap(nodes, secs, secs[k])->0) by {
        crate::summary::lemma_concat_has(a, b, parent_overlap(nodes, secs, secs[k])->0);
    }
    assert forall|k: int, x: NodeId|
        0 <= k < secs.len() && siblings_before_of(nodes, secs[k].node_id).contains(x) && (
        #[trigger] sibling_overlap(secs, secs[k], x)) is Some implies sort_pairs(raw).contains(
        sibling_overlap(secs, secs[k], x)->0,
    ) by {
        crate::summary::lemma_concat_has(a, b, sibling_overlap(secs, secs[k], x)->0);
    }
}

// ─── laws of sections ───────────────────────────────────────────────────────

proof fn lemma_parsed_contracts_filter(cs: Seq<Contract>)
    ensures
        parsed_contracts(cs) == cs.filter(|k: Contract| k.parsed is Ok).map_values(
            |k: Contract| k.parsed->Ok_0@,
        ),
    decreases cs.len(),
{
    reveal(Seq::filter);
    if cs.len() > 0 {
        lemma_parsed_contracts_filter(cs.drop_last());
        let f = cs.drop_last().filter(|k: Contract| k.parsed is Ok);
        if cs.last().parsed is Ok {
            assert(f.push(cs.last()).map_values(|k: Contract| k.parsed->Ok_0@) =~= f.map_values(
                |k: Contract| k.parsed->Ok_0@,
            ).push(cs.last().parsed->Ok_0@));
        }
    } else {
        assert(cs.filter(|k: Contract| k.parsed is Ok).map_values(|k: Contract| k.parsed->Ok_0@)
            =~= Seq::<ConstraintView>::empty());
    }
}

/// A node's section holds one constraint per contract of the node that
/// parses, whatever its kind (`before`, `after` or `always`), in contract
/// order: the `k`-th constraint is the parse of the `k`-th contract that
/// parses.
pub proof fn lemma_section_holds_every_parsed_contract(n: Node)
    ensures
        section_of(n).constraints == n.contracts@.filter(|k: Contract| k.parsed is Ok).map_values(
            |k: Contract| k.parsed->Ok_0@,
        ),
        section_of(n).constraints.len() == n.contracts@.filter(|k: Contract| k.parsed is Ok).len(),
        forall|i: int|
            0 <= i < n.contracts@.len() && (#[trigger] n.contracts@[i]).parsed is Ok ==> section_of(
                n,
            ).constraints.contains(n.contracts@[i].parsed->Ok_0@),
{
    lemma_parsed_contracts_filter(n.contracts@);
    let f = n.contracts@.filter(|k: Contract| k.parsed is Ok);
    assert forall|i: int|
        0 <= i < n.contracts@.len() && (#[trigger] n.contracts@[i]).parsed is Ok implies section_of(
        n,
    ).constraints.contains(n.contracts@[i].parsed->Ok_0@) by {
        n.contracts@.lemma_filter_contains(|k: Contract| k.parsed is Ok, i);
        let j = choose|j: int| 0 <= j < f.len() && f[j] == n.contracts@[i];
        assert(section_of(n).constraints[j] == n.contracts@[i].parsed->Ok_0@);
    }
}

} // verus!
