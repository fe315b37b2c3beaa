//! The sensor telemetry tree and metric extraction.
//!
//! The provider reports a tree of sensor nodes. A metric is extracted by a
//! depth-first, pre-order walk over the children (the root itself is never
//! a metric): a node counts when its display text contains the target label
//! case-insensitively and its kind tag is exactly `"Temperature"`; the first
//! such node whose value string parses gives the reading. A matching node
//! whose value does not parse is skipped, not a failure.

use vstd::prelude::*;
use vstd::string::StrSliceExecFns;
use crate::decimal::Decimal;
use crate::parse::{spec_parse_temperature, parse_temperature, str_to_chars, matches_at};

verus! {

/// The root of the telemetry tree. It carries no kind tag and is itself
/// never a metric; extraction walks `children`.
#[derive(Debug)]
pub struct Root {
    pub id: Option<i64>,
    pub text: String,
    pub min: Option<String>,
    pub value: Option<String>,
    pub max: Option<String>,
    pub image_url: Option<String>,
    pub children: Vec<Children>,
}

/// One sensor node: possibly a category, possibly a leaf metric.
#[derive(Debug)]
pub struct Children {
    pub id: Option<i64>,
    pub text: String,
    pub min: Option<String>,
    pub value: Option<String>,
    pub max: Option<String>,
    pub image_url: Option<String>,
    pub sensor_id: Option<String>,
    pub type_field: Option<String>,
    pub children: Vec<Children>,
}

/// What `str::to_lowercase` returns for a given character sequence.
pub uninterp spec fn lower_of(s: Seq<char>) -> Seq<char>;

/// Relies on str::to_lowercase: the result depends on the characters alone.
#[verifier::external_body]
fn to_lower(s: &str) -> (r: String)
    ensures
        r@ == lower_of(s@),
{
    s.to_lowercase()
}

/// `needle` stands somewhere in `hay` as a contiguous run.
pub open spec fn is_substring(hay: Seq<char>, needle: Seq<char>) -> bool {
    exists|i: int|
        0 <= i <= hay.len() - needle.len() && #[trigger] hay.subrange(i, i + needle.len())
            == needle
}

fn contains_chars(hay: &Vec<char>, needle: &Vec<char>) -> (b: bool)
    ensures
        b == is_substring(hay@, needle@),
{
    if needle.len() > hay.len() {
        return false;
    }
    let bound = hay.len() - needle.len();
    let mut i: usize = 0;
    loop
        invariant
            needle.len() <= hay.len(),
            bound == hay.len() - needle.len(),
            i <= bound,
            forall|j: int|
                0 <= j < i ==> #[trigger] hay@.subrange(j, j + needle@.len() as int) != needle@,
        decreases bound - i,
    {
        if matches_at(hay, needle, i) {
            return true;
        }
        if i == bound {
            return false;
        }
        i = i + 1;
    }
}

/// The node's kind tag equals the sentinel `"Temperature"`.
pub open spec fn spec_is_temperature(c: Children) -> bool {
    match c.type_field {
        Some(t) => t@ == "Temperature"@,
        None => false,
    }
}

/// The node's display text contains the (already lowercased) target label
/// case-insensitively, and the node is of kind `"Temperature"`.
pub open spec fn spec_node_matches(c: Children, target_lower: Seq<char>) -> bool {
    is_substring(lower_of(c.text@), target_lower) && spec_is_temperature(c)
}

/// The reading a node offers: its value string parsed, if there is one.
pub open spec fn spec_node_reading(c: Children) -> Option<Decimal> {
    match c.value {
        Some(v) => spec_parse_temperature(v@),
        None => None,
    }
}

/// The first reading in a pre-order walk: a node that matches and parses
/// answers at once; any other node defers to its children, then to the
/// nodes after it. `None` when no node both matches and parses.
pub open spec fn spec_find_in_seq(s: Seq<Children>, target_lower: Seq<char>) -> Option<Decimal>
    decreases s,
    via spec_find_in_seq_decreases
{
    if s.len() == 0 {
        None
    } else {
        let c = s[0];
        let here = if spec_node_matches(c, target_lower) && spec_node_reading(c) is Some {
            spec_node_reading(c)
        } else {
            spec_find_in_seq(c.children@, target_lower)
        };
        if here is Some {
            here
        } else {
            spec_find_in_seq(s.drop_first(), target_lower)
        }
    }
}

#[via_fn]
proof fn spec_find_in_seq_decreases(s: Seq<Children>, target_lower: Seq<char>) {
    if s.len() > 0 {
        assert(decreases_to!(s => s[0]));
        assert(decreases_to!(s[0] => s[0].children));
        assert(decreases_to!(s[0].children => s[0].children@));
    }
}

fn is_temperature_node(c: &Children) -> (b: bool)
    ensures
        b == spec_is_temperature(*c),
{
    let sentinel: String = "Temperature".to_owned();
    match &c.type_field {
        Some(t) => *t == sentinel,
        None => false,
    }
}

fn find_rec(children: &Vec<Children>, target_lower: &Vec<char>) -> (r: Option<Decimal>)
    ensures
        r == spec_find_in_seq(children@, target_lower@),
        r matches Some(d) ==> d.wf(),
    decreases children@,
{
    let n = children.len();
    let mut i: usize = 0;
    proof {
        assert(children@.skip(0) =~= children@);
    }
    while i < n
        invariant
            n == children.len(),
            i <= n,
            spec_find_in_seq(children@, target_lower@) == spec_find_in_seq(
                children@.skip(i as int),
                target_lower@,
            ),
        decreases n - i,
    {
        let c = &children[i];
        let ghost rest = children@.skip(i as int);
        proof {
            assert(rest[0] == children@[i as int]);
        }
        let lowered = to_lower(c.text.as_str());
        let lowered_chars = str_to_chars(lowered.as_str());
        let matched = contains_chars(&lowered_chars, target_lower) && is_temperature_node(c);
        if matched {
            if let Some(v) = &c.value {
                let parsed = parse_temperature(v.as_str());
                if parsed.is_some() {
                    return parsed;
                }
            }
        }
        proof {
            assert(decreases_to!(children@ => children@[i as int]));
            assert(decreases_to!(children@[i as int] => children@[i as int].children));
            assert(decreases_to!(children@[i as int].children => children@[i as int].children@));
        }
        let sub = find_rec(&c.children, target_lower);
        if sub.is_some() {
            return sub;
        }
        proof {
            assert(rest.drop_first() =~= children@.skip(i + 1));
        }
        i = i + 1;
    }
    proof {
        assert(children@.skip(n as int) =~= Seq::<Children>::empty());
    }
    None
}

/// Depth-first, pre-order search of the children for the first node whose
/// text contains `target` case-insensitively, whose kind is
/// `"Temperature"`, and whose value parses. Nodes that match but do not
/// parse are skipped; deeper or later nodes may still answer.
pub fn find_temperature_recursive(children: &Vec<Children>, target: &str) -> (r: Option<Decimal>)
    ensures
        r == spec_find_in_seq(children@, lower_of(target@)),
        r matches Some(d) ==> d.wf(),
{
    let lowered = to_lower(target);
    let target_lower = str_to_chars(lowered.as_str());
    find_rec(children, &target_lower)
}

/// The pre-order listing of a forest: each node, then its subtree, then
/// the nodes after it.
pub open spec fn preorder(s: Seq<Children>) -> Seq<Children>
    decreases s,
    via preorder_decreases
{
    if s.len() == 0 {
        Seq::<Children>::empty()
    } else {
        seq![s[0]] + preorder(s[0].children@) + preorder(s.drop_first())
    }
}

#[via_fn]
proof fn preorder_decreases(s: Seq<Children>) {
    if s.len() > 0 {
        assert(decreases_to!(s => s[0]));
        assert(decreases_to!(s[0] => s[0].children));
        assert(decreases_to!(s[0].children => s[0].children@));
    }
}

/// A node answers for a target when it matches and its value parses.
pub open spec fn answers(target_lower: Seq<char>) -> spec_fn(Children) -> bool {
    |c: Children| spec_node_matches(c, target_lower) && spec_node_reading(c) is Some
}

/// Law: the search returns exactly the reading of the first node, in
/// pre-order, that matches the target and whose value parses — and
/// `None` when no node does. Matching nodes that fail to parse do not
/// end the search; they simply are not that first node.
pub proof fn lemma_find_is_first_preorder(s: Seq<Children>, target_lower: Seq<char>)
    ensures
        ({
            let hits = preorder(s).filter(answers(target_lower));
            spec_find_in_seq(s, target_lower) == if hits.len() == 0 {
                None::<Decimal>
            } else {
                spec_node_reading(hits[0])
            }
        }),
    decreases s,
{
    reveal(Seq::filter);
    let p = answers(target_lower);
    if s.len() > 0 {
        let c = s[0];
        assert(decreases_to!(s => s[0]));
        assert(decreases_to!(s[0] => s[0].children));
        assert(decreases_to!(s[0].children => s[0].children@));
        lemma_find_is_first_preorder(c.children@, target_lower);
        lemma_find_is_first_preorder(s.drop_first(), target_lower);
        let below = preorder(c.children@);
        let after = preorder(s.drop_first());
        let hits_below = below.filter(p);
        let hits_after = after.filter(p);
        Seq::<Children>::filter_distributes_over_add(seq![c] + below, after, p);
        Seq::<Children>::filter_distributes_over_add(seq![c], below, p);
        // the filtered singleton is the node itself, or nothing
        assert(seq![c].len() == 1);
        assert(seq![c].last() == c);
        assert(seq![c].drop_last() =~= Seq::<Children>::empty());
        assert(Seq::<Children>::empty().filter(p) =~= Seq::<Children>::empty());
        assert(seq![c].filter(p) == if p(c) {
            seq![c].drop_last().filter(p).push(c)
        } else {
            seq![c].drop_last().filter(p)
        });
        assert(Seq::<Children>::empty().push(c) =~= seq![c]);
        if p(c) {
            assert(seq![c].filter(p) =~= seq![c]);
            let hits = preorder(s).filter(p);
            assert(hits =~= seq![c] + hits_below + hits_after);
            assert(hits.len() > 0 && hits[0] == c);
        } else {
            assert(seq![c].filter(p) =~= Seq::<Children>::empty());
            let hits = preorder(s).filter(p);
            assert(hits =~= hits_below + hits_after);
            if hits_below.len() > 0 {
                assert(hits[0] == hits_below[0]);
                assert(spec_find_in_seq(c.children@, target_lower) == spec_node_reading(
                    hits_below[0],
                ));
                Seq::<Children>::lemma_filter_pred(below, p, 0);
                assert(spec_node_reading(hits_below[0]) is Some);
            } else {
                assert(hits =~= hits_after);
                assert(spec_find_in_seq(c.children@, target_lower) is None);
            }
        }
    }
}

/// No node of the tree, at any depth, carries the kind tag `"Temperature"`.
pub open spec fn spec_no_temperature(s: Seq<Children>) -> bool
    decreases s,
    via spec_no_temperature_decreases
{
    if s.len() == 0 {
        true
    } else {
        !spec_is_temperature(s[0]) && spec_no_temperature(s[0].children@)
            && spec_no_temperature(s.drop_first())
    }
}

#[via_fn]
proof fn spec_no_temperature_decreases(s: Seq<Children>) {
    if s.len() > 0 {
        assert(decreases_to!(s => s[0]));
        assert(decreases_to!(s[0] => s[0].children));
        assert(decreases_to!(s[0].children => s[0].children@));
    }
}

/// Law: a tree without a single node of kind `"Temperature"` yields no
/// reading for any target — the search answers `None`, not an error.
pub proof fn lemma_no_temperature_no_metric(s: Seq<Children>, target_lower: Seq<char>)
    requires
        spec_no_temperature(s),
    ensures
        spec_find_in_seq(s, target_lower) is None,
    decreases s,
{
    if s.len() > 0 {
        assert(decreases_to!(s => s[0]));
        assert(decreases_to!(s[0] => s[0].children));
        assert(decreases_to!(s[0].children => s[0].children@));
        lemma_no_temperature_no_metric(s[0].children@, target_lower);
        lemma_no_temperature_no_metric(s.drop_first(), target_lower);
    }
}

} // verus!
