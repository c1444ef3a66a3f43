//! Decoding dump lines: each line is one JSON object whose fields are
//! extracted into a `Line` record. A line that is not valid JSON, or
//! whose fields have the wrong shape, is a fatal error carrying the
//! offending line.
use vstd::prelude::*;

use crate::dominator::{one_w, wsum};
use crate::graph::{build_graph, graph_edges, node_objs, resolved_kind, root_props, HeapGraph};
use crate::line::{
    parse_ok_props, spec_field_drop, spec_line_err, spec_pre_drop, Line, ParseError, ParsedLine,
};
use crate::object::Object;
use vstd::string::StringExecFns;

verus! {

/// The shape and content of one field of a JSON line: absent, null, a
/// string, a non-negative integer, an array of strings, or anything
/// else (including a line that is not valid JSON at all).
pub enum FieldVal {
    Missing,
    Null,
    Text(String),
    Nat(u64),
    Texts(Vec<String>),
    Other,
}

/// What the named field of the given line of JSON text decodes to.
/// The decode depends on the text and the key alone.
pub uninterp spec fn field_of(s: Seq<char>, k: Seq<char>) -> FieldVal;

/// Relies on `serde_json::from_str::<Value>` and `Value`'s accessors
/// (`get`, `as_u64`, `as_str`, `as_array`): classifies the named field
/// of one line of JSON text; `Other` covers invalid JSON and every
/// other shape. The result depends on the text and the key alone.
#[verifier::external_body]
fn field(s: &str, k: &str) -> (r: FieldVal)
    ensures
        r == field_of(s@, k@),
{
    let v: serde_json::Value = match serde_json::from_str(s) { Ok(v) => v, Err(_) => return FieldVal::Other };
    match v.get(k) {
        None => FieldVal::Missing,
        Some(serde_json::Value::Null) => FieldVal::Null,
        Some(serde_json::Value::String(t)) => FieldVal::Text(t.clone()),
        Some(f) => match (f.as_u64(), f.as_array()) {
            (Some(u), _) => FieldVal::Nat(u),
            (_, Some(a)) => a.iter().map(|e| e.as_str().map(str::to_owned))
                .collect::<Option<Vec<String>>>().map_or(FieldVal::Other, FieldVal::Texts),
            _ => FieldVal::Other,
        },
    }
}

/// An optional string field has the right shape.
pub open spec fn opt_text_ok(f: FieldVal) -> bool {
    match f {
        FieldVal::Missing => true,
        FieldVal::Null => true,
        FieldVal::Text(_) => true,
        _ => false,
    }
}

/// An optional string field agrees with its decoded value.
pub open spec fn opt_text_agrees(f: FieldVal, o: Option<String>) -> bool {
    match (f, o) {
        (FieldVal::Missing, Option::None) => true,
        (FieldVal::Null, Option::None) => true,
        (FieldVal::Text(t), Option::Some(a)) => a@ == t@,
        _ => false,
    }
}

/// An optional size field has the right shape: absent, null, or an
/// integer that fits a machine word.
pub open spec fn opt_nat_ok(f: FieldVal) -> bool {
    match f {
        FieldVal::Missing => true,
        FieldVal::Null => true,
        FieldVal::Nat(u) => u <= usize::MAX as u64,
        _ => false,
    }
}

/// An optional size field agrees with its decoded value.
pub open spec fn opt_nat_agrees(f: FieldVal, o: Option<usize>) -> bool {
    match (f, o) {
        (FieldVal::Missing, Option::None) => true,
        (FieldVal::Null, Option::None) => true,
        (FieldVal::Nat(u), Option::Some(m)) => u <= usize::MAX as u64 && m == u as usize,
        _ => false,
    }
}

/// The kind tag must be a string.
pub open spec fn type_ok(f: FieldVal) -> bool {
    f matches FieldVal::Text(_)
}

/// The kind tag agrees with its decoded value.
pub open spec fn type_agrees(f: FieldVal, t: String) -> bool {
    match f {
        FieldVal::Text(x) => t@ == x@,
        _ => false,
    }
}

/// The reference list must be absent or an array of strings.
pub open spec fn refs_ok(f: FieldVal) -> bool {
    match f {
        FieldVal::Missing => true,
        FieldVal::Texts(_) => true,
        _ => false,
    }
}

/// The reference list agrees with its decoded value: absent means
/// empty.
pub open spec fn refs_agree(f: FieldVal, v: Vec<String>) -> bool {
    match f {
        FieldVal::Missing => v@.len() == 0,
        FieldVal::Texts(ts) => v@.len() == ts@.len() && (forall|i: int|
            0 <= i < v@.len() ==> (#[trigger] v@[i])@ == ts@[i]@),
        _ => false,
    }
}

/// Every field of the line follows the expected schema.
pub open spec fn decodable(s: Seq<char>) -> bool {
    &&& opt_text_ok(field_of(s, "address"@))
    &&& opt_nat_ok(field_of(s, "memsize"@))
    &&& type_ok(field_of(s, "type"@))
    &&& refs_ok(field_of(s, "references"@))
    &&& opt_text_ok(field_of(s, "class"@))
    &&& opt_text_ok(field_of(s, "name"@))
    &&& opt_nat_ok(field_of(s, "length"@))
    &&& opt_nat_ok(field_of(s, "size"@))
    &&& opt_text_ok(field_of(s, "value"@))
}

/// The record the line decodes to: every field agrees with the line's
/// decoded fields. Any two records a line decodes to agree on every
/// view.
pub open spec fn decodes_to(s: Seq<char>, l: Line) -> bool {
    &&& opt_text_agrees(field_of(s, "address"@), l.address)
    &&& opt_nat_agrees(field_of(s, "memsize"@), l.memsize)
    &&& type_agrees(field_of(s, "type"@), l.object_type)
    &&& refs_agree(field_of(s, "references"@), l.references)
    &&& opt_text_agrees(field_of(s, "class"@), l.class)
    &&& opt_text_agrees(field_of(s, "name"@), l.name)
    &&& opt_nat_agrees(field_of(s, "length"@), l.length)
    &&& opt_nat_agrees(field_of(s, "size"@), l.size)
    &&& opt_text_agrees(field_of(s, "value"@), l.value)
}

/// Extracts one record from a line of text. Succeeds exactly on the
/// lines whose fields follow the schema, and then returns the record
/// the line decodes to.
pub fn decode_line(s: &str) -> (r: Option<Line>)
    ensures
        r is Some <==> decodable(s@),
        r matches Some(l) ==> decodes_to(s@, l),
{
    let address = match field(s, "address") {
        FieldVal::Missing => None,
        FieldVal::Null => None,
        FieldVal::Text(t) => Some(t),
        _ => {
            return None;
        },
    };
    let memsize = match field(s, "memsize") {
        FieldVal::Missing => None,
        FieldVal::Null => None,
        FieldVal::Nat(u) => {
            if u <= usize::MAX as u64 {
                Some(u as usize)
            } else {
                return None;
            }
        },
        _ => {
            return None;
        },
    };
    let object_type = match field(s, "type") {
        FieldVal::Text(t) => t,
        _ => {
            return None;
        },
    };
    let references = match field(s, "references") {
        FieldVal::Missing => Vec::new(),
        FieldVal::Texts(ts) => ts,
        _ => {
            return None;
        },
    };
    let class = match field(s, "class") {
        FieldVal::Missing => None,
        FieldVal::Null => None,
        FieldVal::Text(t) => Some(t),
        _ => {
            return None;
        },
    };
    let name = match field(s, "name") {
        FieldVal::Missing => None,
        FieldVal::Null => None,
        FieldVal::Text(t) => Some(t),
        _ => {
            return None;
        },
    };
    let length = match field(s, "length") {
        FieldVal::Missing => None,
        FieldVal::Null => None,
        FieldVal::Nat(u) => {
            if u <= usize::MAX as u64 {
                Some(u as usize)
            } else {
                return None;
            }
        },
        _ => {
            return None;
        },
    };
    let size = match field(s, "size") {
        FieldVal::Missing => None,
        FieldVal::Null => None,
        FieldVal::Nat(u) => {
            if u <= usize::MAX as u64 {
                Some(u as usize)
            } else {
                return None;
            }
        },
        _ => {
            return None;
        },
    };
    let value = match field(s, "value") {
        FieldVal::Missing => None,
        FieldVal::Null => None,
        FieldVal::Text(t) => Some(t),
        _ => {
            return None;
        },
    };
    Some(Line { address, memsize, references, object_type, class, name, length, size, value })
}

/// A line on which the run fails: it does not follow the schema, or
/// the record it decodes to has malformed address, reference or class
/// text.
pub open spec fn line_fails(s: Seq<char>) -> bool {
    !decodable(s) || (exists|l: Line| decodes_to(s, l) && spec_line_err(l))
}

/// A line whose record survives as a graph node or as root references:
/// it decodes, is not malformed, and is not silently dropped.
pub open spec fn line_kept(s: Seq<char>) -> bool {
    exists|l: Line|
        decodes_to(s, l) && !spec_line_err(l) && !spec_pre_drop(l) && !spec_field_drop(l)
}

/// The kept lines among the first `n`.
pub open spec fn sel_kept_lines(lines: Seq<String>) -> spec_fn(int) -> bool {
    |i: int| 0 <= i < lines.len() && line_kept(lines[i]@)
}

/// The record a kept line contributes: what `Line::parse` returns for
/// the record the line decodes to.
pub open spec fn line_rec(s: Seq<char>, p: ParsedLine) -> bool {
    exists|l: Line| decodes_to(s, l) && parse_ok_props(l, p)
}

/// Any two records one line decodes to fail, pre-drop and field-drop
/// alike: those judgments read only the fields' views, which the line
/// pins.
proof fn lemma_decode_agrees(s: Seq<char>, l1: Line, l2: Line)
    requires
        decodes_to(s, l1),
        decodes_to(s, l2),
    ensures
        spec_line_err(l1) == spec_line_err(l2),
        spec_pre_drop(l1) == spec_pre_drop(l2),
        spec_field_drop(l1) == spec_field_drop(l2),
{
    assert(crate::line::spec_obj_addr(l1) == crate::line::spec_obj_addr(l2));
    assert(crate::line::spec_class_bad(l1) == crate::line::spec_class_bad(l2));
    assert(crate::line::spec_refs_valid(l1) == crate::line::spec_refs_valid(l2)) by {
        match field_of(s, "references"@) {
            FieldVal::Texts(ts) => {
                assert forall|i: int| 0 <= i < l1.references@.len() implies (
                crate::line::addr_of_text(#[trigger] l1.references@[i]@) is Some
                    == crate::line::addr_of_text(l2.references@[i]@) is Some) by {
                    assert(l1.references@[i]@ == ts@[i]@);
                    assert(l2.references@[i]@ == ts@[i]@);
                }
                if crate::line::spec_refs_valid(l1) {
                    assert forall|i: int| 0 <= i < l2.references@.len() implies crate::line::addr_of_text(
                        #[trigger] l2.references@[i]@,
                    ) is Some by {
                        assert(crate::line::addr_of_text(l1.references@[i]@) is Some);
                    }
                }
                if crate::line::spec_refs_valid(l2) {
                    assert forall|i: int| 0 <= i < l1.references@.len() implies crate::line::addr_of_text(
                        #[trigger] l1.references@[i]@,
                    ) is Some by {
                        assert(crate::line::addr_of_text(l2.references@[i]@) is Some);
                    }
                }
            },
            _ => {},
        }
    }
}

/// What `build_graph` guarantees of its result, for a record sequence.
pub open spec fn built_from(rs: Seq<ParsedLine>, root: int, g: HeapGraph) -> bool {
    &&& root == 0
    &&& g.nodes@.len() == node_objs(rs).len() + 1
    &&& root_props(g.nodes@[0])
    &&& forall|j: int|
        1 <= j < g.nodes@.len() ==> #[trigger] g.nodes@[j] == (Object {
            kind: resolved_kind(rs, node_objs(rs)[j - 1]),
            ..node_objs(rs)[j - 1]
        })
    &&& g.edges@ == graph_edges(rs)
    &&& g.wf()
}

/// The graph a line sequence parses to: built from a record sequence
/// holding, in order, exactly the record of each kept line.
pub open spec fn parse_ok(lines: Seq<String>, p: (usize, HeapGraph)) -> bool {
    exists|rs: Seq<ParsedLine>|
        {
            &&& #[trigger] built_from(rs, p.0 as int, p.1)
            &&& rs.len() == wsum(one_w(), sel_kept_lines(lines), lines.len() as int)
            &&& forall|i: int|
                0 <= i < lines.len() && line_kept(#[trigger] lines[i]@) ==> line_rec(
                    lines[i]@,
                    rs[wsum(one_w(), sel_kept_lines(lines), i) as int],
                )
        }
}

/// Parses a whole dump, one record per line, and builds the reference
/// graph. Fails on the first line that is not valid JSON, does not
/// follow the schema, or holds malformed address text, and the error
/// carries that line; otherwise returns the root's node index and the
/// graph built from the kept lines' records, in order.
pub fn parse_lines(lines: &Vec<String>) -> (r: Result<(usize, HeapGraph), ParseError>)
    ensures
        r is Err <==> exists|i: int| 0 <= i < lines@.len() && line_fails(#[trigger] lines@[i]@),
        r matches Err(ParseError::Malformed(t)) ==> exists|i: int|
            {
                &&& 0 <= i < lines@.len()
                &&& t@ == (#[trigger] lines@[i]@)
                &&& line_fails(lines@[i]@)
                &&& forall|j: int| 0 <= j < i ==> !line_fails(lines@[j]@)
            },
        r matches Ok(p) ==> parse_ok(lines@, p),
{
    let n = lines.len();
    let mut records: Vec<ParsedLine> = Vec::new();
    let mut i: usize = 0;
    while i < n
        invariant
            0 <= i <= n,
            n == lines@.len(),
            forall|j: int| 0 <= j < i ==> !line_fails(#[trigger] lines@[j]@),
            records@.len() == wsum(one_w(), sel_kept_lines(lines@), i as int),
            forall|j: int|
                0 <= j < i && line_kept(#[trigger] lines@[j]@) ==> line_rec(
                    lines@[j]@,
                    records@[wsum(one_w(), sel_kept_lines(lines@), j) as int],
                ),
        decreases n - i,
    {
        let line = &lines[i];
        let li = match decode_line(line.as_str()) {
            Some(l) => l,
            None => {
                return Err(ParseError::Malformed(line.clone()));
            },
        };
        let ghost lig = li;
        match li.parse() {
            Ok(Some(p)) => {
                proof {
                    assert(!line_fails(lines@[i as int]@)) by {
                        if exists|l: Line| decodes_to(lines@[i as int]@, l) && spec_line_err(l) {
                            let l2 = choose|l: Line|
                                decodes_to(lines@[i as int]@, l) && spec_line_err(l);
                            lemma_decode_agrees(lines@[i as int]@, lig, l2);
                        }
                    }
                    assert(line_kept(lines@[i as int]@));
                    assert(line_rec(lines@[i as int]@, p));
                }
                records.push(p);
                proof {
                    lemma_kept_step(lines@, i as int, n as int, true);
                    assert forall|j: int|
                        0 <= j < i + 1 && line_kept(#[trigger] lines@[j]@) implies line_rec(
                        lines@[j]@,
                        records@[wsum(one_w(), sel_kept_lines(lines@), j) as int],
                    ) by {
                        if j < i {
                            lemma_kept_step(lines@, j, n as int, true);
                            lemma_kept_mono(lines@, j + 1, i as int);
                        }
                    }
                }
            },
            Ok(None) => {
                proof {
                    assert(!line_fails(lines@[i as int]@)) by {
                        if exists|l: Line| decodes_to(lines@[i as int]@, l) && spec_line_err(l) {
                            let l2 = choose|l: Line|
                                decodes_to(lines@[i as int]@, l) && spec_line_err(l);
                            lemma_decode_agrees(lines@[i as int]@, lig, l2);
                        }
                    }
                    assert(!line_kept(lines@[i as int]@)) by {
                        if line_kept(lines@[i as int]@) {
                            let l2 = choose|l: Line|
                                decodes_to(lines@[i as int]@, l) && !spec_line_err(l)
                                    && !spec_pre_drop(l) && !spec_field_drop(l);
                            lemma_decode_agrees(lines@[i as int]@, lig, l2);
                        }
                    }
                    lemma_kept_step(lines@, i as int, n as int, false);
                }
            },
            Err(_) => {
                proof {
                    assert(line_fails(lines@[i as int]@));
                }
                return Err(ParseError::Malformed(line.clone()));
            },
        }
        i = i + 1;
    }
    let ghost rs = records@;
    let p = build_graph(records);
    proof {
        assert(built_from(rs, p.0 as int, p.1));
        assert(parse_ok(lines@, p));
    }
    Ok(p)
}

/// The kept count never shrinks along a prefix.
proof fn lemma_kept_mono(lines: Seq<String>, a: int, b: int)
    requires
        a <= b,
    ensures
        wsum(one_w(), sel_kept_lines(lines), a) <= wsum(one_w(), sel_kept_lines(lines), b),
    decreases b - a,
{
    if a < b {
        lemma_kept_mono(lines, a, b - 1);
    }
}

/// Processing one more line extends the kept count by one exactly when
/// the line is kept.
proof fn lemma_kept_step(lines: Seq<String>, i: int, n: int, kept: bool)
    requires
        0 <= i < n,
        n == lines.len(),
        kept == line_kept(lines[i]@),
    ensures
        wsum(one_w(), sel_kept_lines(lines), i + 1) == wsum(one_w(), sel_kept_lines(lines), i) + (
        if kept {
            1int
        } else {
            0int
        }),
{
}

} // verus!
