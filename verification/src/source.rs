//! The temperature source: from a fetched document body to the two
//! readings. The HTTP transport itself lives outside the library; this
//! module does everything after the body has arrived.

use vstd::prelude::*;
use crate::decimal::Decimal;
use crate::json::{decode_tree, spec_decode_tree, GNode, node_view, nodes_view};
use crate::parse::spec_parse_temperature;
use crate::tree::{
    Root, find_temperature_recursive, spec_find_in_seq, spec_is_temperature, spec_node_reading,
    is_substring, lower_of,
};

verus! {

/// Why a fetch produced no readings: the request could not complete, or
/// the body was not the expected tree shape.
#[derive(Clone, Copy, Debug, PartialEq, Eq, Structural)]
pub enum FetchError {
    Network,
    Decode,
}

/// The kind tag of a decoded node equals the sentinel `"Temperature"`.
pub open spec fn g_is_temperature(g: GNode) -> bool {
    match g.type_field {
        Some(t) => t == "Temperature"@,
        None => false,
    }
}

/// A decoded node matches: its text contains the lowercased target and
/// its kind is `"Temperature"`.
pub open spec fn g_node_matches(g: GNode, target_lower: Seq<char>) -> bool {
    is_substring(lower_of(g.text), target_lower) && g_is_temperature(g)
}

/// The reading a decoded node offers.
pub open spec fn g_node_reading(g: GNode) -> Option<Decimal> {
    match g.value {
        Some(v) => spec_parse_temperature(v),
        None => None,
    }
}

/// The pre-order search over the decoded tree, as `spec_find_in_seq` is
/// over the in-memory one.
pub open spec fn g_find_in_seq(s: Seq<GNode>, target_lower: Seq<char>) -> Option<Decimal>
    decreases s,
    via g_find_in_seq_decreases
{
    if s.len() == 0 {
        None
    } else {
        let g = s[0];
        let here = if g_node_matches(g, target_lower) && g_node_reading(g) is Some {
            g_node_reading(g)
        } else {
            g_find_in_seq(g.children, target_lower)
        };
        if here is Some {
            here
        } else {
            g_find_in_seq(s.drop_first(), target_lower)
        }
    }
}

#[via_fn]
proof fn g_find_in_seq_decreases(s: Seq<GNode>, target_lower: Seq<char>) {
    if s.len() > 0 {
        assert(decreases_to!(s => s[0]));
        assert(decreases_to!(s[0] => s[0].children));
    }
}

/// Law: searching the in-memory forest and searching its decoded ghost
/// image give the same reading — extraction depends only on what the
/// document said.
pub proof fn lemma_find_view(s: Seq<crate::tree::Children>, target_lower: Seq<char>)
    ensures
        spec_find_in_seq(s, target_lower) == g_find_in_seq(nodes_view(s), target_lower),
    decreases s,
{
    if s.len() > 0 {
        assert(decreases_to!(s => s[0]));
        assert(decreases_to!(s[0] => s[0].children));
        assert(decreases_to!(s[0].children => s[0].children@));
        lemma_find_view(s[0].children@, target_lower);
        lemma_find_view(s.drop_first(), target_lower);
        let g = nodes_view(s);
        assert(g[0] == node_view(s[0]));
        assert(g.drop_first() =~= nodes_view(s.drop_first()));
        assert(g_is_temperature(node_view(s[0])) == spec_is_temperature(s[0]));
        assert(g_node_reading(node_view(s[0])) == spec_node_reading(s[0]));
        assert(node_view(s[0]).children == nodes_view(s[0].children@));
    }
}

/// The readings a decoded tree yields for the two fixed target labels:
/// `"Core (Tctl/Tdie)"` for the CPU and `"GPU Core"` for the GPU. A tree
/// in which neither matches yields `(None, None)` — that is data, not an
/// error.
pub fn get_readings(root: &Root) -> (r: (Option<Decimal>, Option<Decimal>))
    ensures
        r.0 == spec_find_in_seq(root.children@, lower_of("Core (Tctl/Tdie)"@)),
        r.1 == spec_find_in_seq(root.children@, lower_of("GPU Core"@)),
        r.0 matches Some(d) ==> d.wf(),
        r.1 matches Some(d) ==> d.wf(),
{
    let cpu = find_temperature_recursive(&root.children, "Core (Tctl/Tdie)");
    let gpu = find_temperature_recursive(&root.children, "GPU Core");
    (cpu, gpu)
}

/// Decodes a fetched body and extracts the CPU and GPU readings: `Ok`
/// exactly when the body is a well-formed telemetry document, and then
/// the pre-order readings of that document for the two fixed labels — a
/// document without matches gives `Ok((None, None))`, not an error. The
/// only error raised here is `Decode`; `Network` is reserved for the
/// transport that could not deliver a body at all.
pub fn get_temperatures(body: &str) -> (r: Result<(Option<Decimal>, Option<Decimal>), FetchError>)
    ensures
        r is Ok <==> spec_decode_tree(body@) is Some,
        spec_decode_tree(body@) matches Some(g) ==> r == Ok::<_, FetchError>(
            (
                g_find_in_seq(g.children, lower_of("Core (Tctl/Tdie)"@)),
                g_find_in_seq(g.children, lower_of("GPU Core"@)),
            ),
        ),
        r matches Err(e) ==> e == FetchError::Decode,
        r matches Ok(p) ==> (p.0 matches Some(d) ==> d.wf()) && (p.1 matches Some(d) ==> d.wf()),
{
    match decode_tree(body) {
        None => Err(FetchError::Decode),
        Some(root) => {
            proof {
                lemma_find_view(root.children@, lower_of("Core (Tctl/Tdie)"@));
                lemma_find_view(root.children@, lower_of("GPU Core"@));
            }
            Ok(get_readings(&root))
        },
    }
}

} // verus!
