//! Compute steps of the bulk loader that sit between the host's row
//! stream and the graph store: vertex-row ingestion with application-id
//! extraction from a JSON property document, identifier resolution, label
//! filtering, and the memory-cap check.

use vstd::prelude::*;
use vstd::string::StringSliceAdditionalSpecFns;

use crate::graph::{Graph, GraphModel, NodeId, NodeInfoV};
use crate::util::{parse_node_id, spec_parse_u64};

verus! {

/// The string value at `key` of the top-level object of the JSON document
/// `json`, when the document parses and that value is a string. The result
/// depends on the two arguments alone.
pub uninterp spec fn json_string_field(json: Seq<char>, key: Seq<char>) -> Option<Seq<char>>;

/// Relies on `serde_json::from_str` to parse the document,
/// `serde_json::Value::get` to index the top-level object, and
/// `serde_json::Value::as_str` to read the value as a string; all three
/// compute from their arguments alone.
#[verifier::external_body]
fn extract_json_string(json: &str, key: &str) -> (r: Option<String>)
    ensures
        match r {
            Some(s) => json_string_field(json@, key@) == Some(s@),
            None => json_string_field(json@, key@) is None,
        },
{
    let value: serde_json::Value = match serde_json::from_str(json) {
        Ok(v) => v,
        Err(_) => return None,
    };
    value.get(key).and_then(|v| v.as_str()).map(|s| s.to_string())
}

/// The application id a vertex row carries: the configured property of its
/// JSON property document, when one is configured and present.
pub open spec fn row_app_id(
    props_json: Option<Seq<char>>,
    node_id_prop: Option<Seq<char>>,
) -> Option<Seq<char>> {
    match (node_id_prop, props_json) {
        (Some(p), Some(js)) => json_string_field(js, p),
        _ => None,
    }
}

/// Ingest one vertex row: parse its id, pull the configured application-id
/// property out of its JSON property document, and register the node.
/// Rows whose id does not parse are skipped, and the result says whether
/// the row was loaded.
pub fn load_vertex_row(
    g: &mut Graph,
    id_str: &str,
    props_json: Option<&str>,
    label: &str,
    node_id_prop: Option<&str>,
) -> (loaded: bool)
    requires
        old(g).wf(),
    ensures
        final(g).wf(),
        ({
            let pj = match props_json {
                Some(js) => Some(js@),
                None => None,
            };
            let np = match node_id_prop {
                Some(p) => Some(p@),
                None => None,
            };
            match spec_parse_u64(id_str.spec_bytes()) {
                None => !loaded && final(g)@ == old(g)@,
                Some(id) => loaded && final(g)@ == old(g)@.add_node_m(
                    id,
                    (NodeInfoV { label: label@, app_id: row_app_id(pj, np) }),
                ),
            }
        }),
{
    let id = match parse_node_id(id_str) {
        Some(id) => id,
        None => {
            return false;
        },
    };
    let app_id: Option<String> = match node_id_prop {
        Some(p) => match props_json {
            Some(js) => extract_json_string(js, p),
            None => None,
        },
        None => None,
    };
    g.add_node(id, label.to_owned(), app_id);
    true
}

/// Resolve a node identifier: the application-id index first, then the
/// string read as a base-10 node id when that id is registered.
pub open spec fn spec_resolve(m: GraphModel, s: &str) -> Option<NodeId> {
    if m.app_index.contains_key(s@) {
        Some(m.app_index[s@])
    } else {
        match spec_parse_u64(s.spec_bytes()) {
            Some(id) => if m.has_node(id) {
                Some(id)
            } else {
                None
            },
            None => None,
        }
    }
}

/// Resolve a node identifier string to an internal node id.
pub fn resolve_node(g: &Graph, id_str: &str) -> (r: Option<NodeId>)
    requires
        g.wf(),
    ensures
        r == spec_resolve(g@, id_str),
{
    match g.resolve_app_id(id_str) {
        Some(id) => Some(id),
        None => match parse_node_id(id_str) {
            Some(id) => {
                if g.node(id).is_some() {
                    Some(id)
                } else {
                    None
                }
            },
            None => None,
        },
    }
}

/// Whether an approximate memory usage exceeds a cap given in mebibytes.
pub fn exceeds_memory_limit(usage_bytes: usize, max_memory_mb: usize) -> (r: bool)
    ensures
        r == (usage_bytes / 1048576 > max_memory_mb),
{
    usage_bytes / 1048576 > max_memory_mb
}

/// ASCII whitespace, as trimmed from filter tokens.
pub open spec fn is_ascii_space(b: u8) -> bool {
    b == 32 || b == 9 || b == 10 || b == 13
}

/// A byte string with leading and trailing ASCII whitespace removed.
pub open spec fn trim_bs(bs: Seq<u8>) -> Seq<u8>
    decreases bs.len(),
{
    if bs.len() > 0 && is_ascii_space(bs[0]) {
        trim_bs(bs.drop_first())
    } else if bs.len() > 0 && is_ascii_space(bs.last()) {
        trim_bs(bs.drop_last())
    } else {
        bs
    }
}

/// `[i, j)` spans one comma-separated token of `bs`.
pub open spec fn seg_delimited(bs: Seq<u8>, i: int, j: int) -> bool {
    &&& 0 <= i <= j <= bs.len()
    &&& (i == 0 || bs[i - 1] == 44)
    &&& (j == bs.len() || bs[j] == 44)
    &&& forall|t: int| i <= t < j ==> bs[t] != 44
}

/// Whether a name passes a comma-separated filter: the filter trims to `*`,
/// or some token of the filter trims to the (non-empty) name.
pub open spec fn spec_matches_filter(filter: Seq<u8>, name: Seq<u8>) -> bool {
    ||| trim_bs(filter) == seq![42u8]
    ||| (name.len() > 0 && exists|i: int, j: int|
        seg_delimited(filter, i, j) && trim_bs(#[trigger] filter.subrange(i, j)) == name)
}

/// Within a byte string, bounds that skip exactly the whitespace margins
/// select the trimmed value.
proof fn lemma_trim_bounds(bs: Seq<u8>, lo: int, hi: int)
    requires
        0 <= lo <= hi <= bs.len(),
        forall|t: int| 0 <= t < lo ==> is_ascii_space(#[trigger] bs[t]),
        forall|t: int| hi <= t < bs.len() ==> is_ascii_space(#[trigger] bs[t]),
        lo < hi ==> !is_ascii_space(bs[lo]) && !is_ascii_space(bs[hi - 1]),
        lo == hi ==> lo == bs.len() || hi == 0 || (forall|t: int|
            0 <= t < bs.len() ==> is_ascii_space(#[trigger] bs[t])),
    ensures
        trim_bs(bs) == bs.subrange(lo, hi),
    decreases bs.len(),
{
    if bs.len() == 0 {
        assert(bs.subrange(lo, hi) =~= bs);
    } else if is_ascii_space(bs[0]) {
        let rest = bs.drop_first();
        if lo == hi {
            assert forall|t: int| 0 <= t < rest.len() implies is_ascii_space(
                #[trigger] rest[t]) by {
                assert(rest[t] == bs[t + 1]);
                if lo == bs.len() {
                    assert(t + 1 < lo);
                } else if hi == 0 {
                    assert(hi <= t + 1 < bs.len());
                }
            }
            lemma_trim_bounds(rest, 0, 0);
            assert(bs.subrange(lo, hi) =~= rest.subrange(0, 0));
        } else {
            assert(lo >= 1) by {
                if lo == 0 {
                    assert(!is_ascii_space(bs[0]));
                }
            }
            lemma_trim_bounds(rest, lo - 1, hi - 1);
            assert(bs.subrange(lo, hi) =~= rest.subrange(lo - 1, hi - 1));
        }
    } else if is_ascii_space(bs.last()) {
        let rest = bs.drop_last();
        if lo == hi {
            if lo == bs.len() {
                assert(is_ascii_space(bs[0]));
                assert(false);
            } else if hi == 0 {
                lemma_trim_bounds(rest, 0, 0);
                assert(bs.subrange(lo, hi) =~= rest.subrange(0, 0));
            } else {
                assert(is_ascii_space(bs[0]));
                assert(false);
            }
        } else {
            assert(hi <= bs.len() - 1) by {
                if hi == bs.len() {
                    assert(!is_ascii_space(bs[hi - 1]));
                }
            }
            lemma_trim_bounds(rest, lo, hi);
            assert(bs.subrange(lo, hi) =~= rest.subrange(lo, hi));
        }
    } else {
        // no margin on either side
        assert(lo == 0) by {
            if lo > 0 {
                assert(is_ascii_space(bs[0]));
            }
        }
        assert(hi == bs.len()) by {
            if hi < bs.len() {
                assert(is_ascii_space(bs[bs.len() - 1]));
                if hi == 0 {
                    assert(is_ascii_space(bs[0]));
                }
            }
        }
        assert(bs.subrange(lo, hi) =~= bs);
    }
}

/// Trimmed bounds of `bs[from..to)`: the first and one-past-last
/// non-whitespace positions.
fn trimmed_bounds(bs: &[u8], from: usize, to: usize) -> (r: (usize, usize))
    requires
        from <= to <= bs@.len(),
    ensures
        from <= r.0 <= r.1 <= to,
        trim_bs(bs@.subrange(from as int, to as int)) == bs@.subrange(r.0 as int, r.1 as int),
{
    let mut lo = from;
    while lo < to && is_space_x(bs[lo])
        invariant
            from <= lo <= to <= bs@.len(),
            forall|t: int| from <= t < lo ==> is_ascii_space(#[trigger] bs@[t]),
        decreases to - lo,
    {
        lo = lo + 1;
    }
    let mut hi = to;
    while hi > lo && is_space_x(bs[hi - 1])
        invariant
            lo <= hi <= to <= bs@.len(),
            from <= lo,
            forall|t: int| hi <= t < to ==> is_ascii_space(#[trigger] bs@[t]),
            forall|t: int| from <= t < lo ==> is_ascii_space(#[trigger] bs@[t]),
            lo < to ==> !is_ascii_space(bs@[lo as int]),
        decreases hi,
    {
        hi = hi - 1;
    }
    proof {
        let seg = bs@.subrange(from as int, to as int);
        assert forall|t: int| 0 <= t < (lo - from) implies is_ascii_space(#[trigger] seg[t]) by {
            assert(seg[t] == bs@[from + t]);
        }
        assert forall|t: int| (hi - from) <= t < seg.len() implies is_ascii_space(
            #[trigger] seg[t]) by {
            assert(seg[t] == bs@[from + t]);
        }
        if lo < hi {
            assert(seg[lo - from] == bs@[lo as int]);
            assert(seg[hi - from - 1] == bs@[hi - 1]);
        }
        if lo == hi {
            if lo < to {
                assert forall|t: int| 0 <= t < seg.len() implies is_ascii_space(
                    #[trigger] seg[t]) by {
                    assert(seg[t] == bs@[from + t]);
                    if from + t < lo {
                    } else {
                        assert(hi <= from + t < to);
                    }
                }
            }
        }
        lemma_trim_bounds(seg, lo - from, hi - from);
        assert(seg.subrange(lo - from, hi - from) =~= bs@.subrange(lo as int, hi as int));
    }
    (lo, hi)
}

fn is_space_x(b: u8) -> (r: bool)
    ensures
        r == is_ascii_space(b),
{
    b == 32 || b == 9 || b == 10 || b == 13
}

/// Whether `bs[lo..hi)` equals the bytes of `name`.
fn range_eq(bs: &[u8], lo: usize, hi: usize, name: &[u8]) -> (r: bool)
    requires
        lo <= hi <= bs@.len(),
    ensures
        r == (bs@.subrange(lo as int, hi as int) == name@),
{
    if hi - lo != name.len() {
        proof {
            assert(bs@.subrange(lo as int, hi as int).len() != name@.len());
        }
        return false;
    }
    let n = name.len();
    for t in 0..n
        invariant
            n == name@.len(),
            lo <= hi <= bs@.len(),
            hi - lo == n,
            forall|q: int| 0 <= q < t ==> bs@[lo + q] == name@[q],
    {
        if bs[lo + t] != name[t] {
            proof {
                assert(bs@.subrange(lo as int, hi as int)[t as int] != name@[t as int]);
            }
            return false;
        }
    }
    proof {
        assert(bs@.subrange(lo as int, hi as int) =~= name@);
    }
    true
}

/// Whether a label name passes a comma-separated filter specification.
/// A specification that trims to `*` accepts every name; otherwise the name
/// must equal one of the comma-separated tokens after trimming.
pub fn matches_filter(name: &str, filter: &str) -> (r: bool)
    ensures
        r == spec_matches_filter(filter.spec_bytes(), name.spec_bytes()),
{
    let fb = filter.as_bytes();
    let nb = name.as_bytes();
    let n = fb.len();
    let (wlo, whi) = trimmed_bounds(fb, 0, n);
    proof {
        assert(fb@.subrange(0, n as int) =~= fb@);
    }
    if whi - wlo == 1 && fb[wlo] == 42 {
        proof {
            assert(fb@.subrange(wlo as int, whi as int) =~= seq![42u8]);
        }
        return true;
    }
    proof {
        assert(trim_bs(fb@) != seq![42u8]) by {
            if trim_bs(fb@) == seq![42u8] {
                assert(fb@.subrange(wlo as int, whi as int).len() == 1);
                assert(fb@.subrange(wlo as int, whi as int)[0] == 42);
                assert(fb@[wlo as int] == 42);
            }
        }
    }
    if nb.len() == 0 {
        return false;
    }
    let mut seg_start: usize = 0;
    let mut pos: usize = 0;
    while pos < n
        invariant
            n == fb@.len(),
            fb@ == filter.spec_bytes(),
            nb@ == name.spec_bytes(),
            nb@.len() > 0,
            seg_start <= pos <= n,
            seg_start == 0 || fb@[seg_start - 1] == 44,
            forall|t: int| seg_start <= t < pos ==> fb@[t] != 44,
            forall|i: int, j: int|
                seg_delimited(fb@, i, j) && j < pos ==> trim_bs(#[trigger] fb@.subrange(i, j))
                    != nb@,
        decreases n - pos,
    {
        if fb[pos] == 44 {
            // close the token [seg_start, pos)
            let (lo, hi) = trimmed_bounds(fb, seg_start, pos);
            if range_eq(fb, lo, hi, nb) {
                proof {
                    assert(seg_delimited(fb@, seg_start as int, pos as int));
                    assert(trim_bs(fb@.subrange(seg_start as int, pos as int)) == nb@);
                }
                return true;
            }
            proof {
                assert forall|i: int, j: int|
                    seg_delimited(fb@, i, j) && j < pos + 1 implies trim_bs(
                    #[trigger] fb@.subrange(i, j),
                ) != nb@ by {
                    if j == pos {
                        assert(i == seg_start) by {
                            if i < seg_start {
                                assert(seg_start >= 1 && fb@[seg_start - 1] == 44);
                                assert(i <= seg_start - 1 < j);
                                assert(fb@[seg_start - 1] != 44);
                            }
                            if i > seg_start {
                                assert(fb@[i - 1] == 44);
                                assert(seg_start <= i - 1 < pos);
                            }
                        }
                    }
                }
            }
            seg_start = pos + 1;
        }
        pos = pos + 1;
    }
    // close the final token [seg_start, n)
    let (lo, hi) = trimmed_bounds(fb, seg_start, n);
    if range_eq(fb, lo, hi, nb) {
        proof {
            assert(seg_delimited(fb@, seg_start as int, n as int));
            assert(trim_bs(fb@.subrange(seg_start as int, n as int)) == nb@);
        }
        return true;
    }
    proof {
        assert forall|i: int, j: int|
            seg_delimited(fb@, i, j) implies trim_bs(#[trigger] fb@.subrange(i, j)) != nb@ by {
            assert(j <= n);
            if j == n {
                assert(i == seg_start) by {
                    if i < seg_start {
                        assert(seg_start >= 1 && fb@[seg_start - 1] == 44);
                        assert(i <= seg_start - 1 < j);
                        assert(fb@[seg_start - 1] != 44);
                    }
                    if i > seg_start {
                        assert(fb@[i - 1] == 44);
                        assert(seg_start <= i - 1 < n);
                    }
                }
            }
        }
    }
    false
}

} // verus!
