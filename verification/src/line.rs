//! One decoded dump record and its validation: hexadecimal address
//! conversion, the drop rules for incidental records, and kind-specific
//! display-label derivation.
use vstd::prelude::*;

use crate::object::Object;
use crate::text::{dec_of, push_char, usize_to_string};
use vstd::string::{StrSliceExecFns, StringExecFns};

verus! {

/// The fields of one dump record, as decoded from its textual form.
#[derive(Debug)]
pub struct Line {
    pub address: Option<String>,
    pub memsize: Option<usize>,
    pub references: Vec<String>,
    pub object_type: String,
    pub class: Option<String>,
    pub name: Option<String>,
    pub length: Option<usize>,
    pub size: Option<usize>,
    pub value: Option<String>,
}

/// Failure of a run: a record that does not follow the expected schema.
/// Carries the offending text for diagnosis.
#[derive(Debug)]
pub enum ParseError {
    Malformed(String),
}

/// A record that survived validation: the object itself plus the raw
/// material the graph builder needs (references, class address, name).
#[derive(Debug)]
pub struct ParsedLine {
    pub object: Object,
    pub references: Vec<usize>,
    pub module: Option<usize>,
    pub name: Option<String>,
}

pub open spec fn is_hex_digit(c: char) -> bool {
    ('0' <= c && c <= '9') || ('a' <= c && c <= 'f') || ('A' <= c && c <= 'F')
}

pub open spec fn hex_digit_val(c: char) -> nat {
    if '0' <= c && c <= '9' {
        (c as nat - 0x30) as nat
    } else if 'a' <= c && c <= 'f' {
        (c as nat - 0x61 + 10) as nat
    } else {
        (c as nat - 0x41 + 10) as nat
    }
}

/// The number denoted by a string of hex digits, most significant first.
pub open spec fn hex_val(s: Seq<char>) -> nat
    decreases s.len(),
{
    if s.len() == 0 {
        0
    } else {
        hex_val(s.drop_last()) * 16 + hex_digit_val(s.last())
    }
}

/// The address an address string denotes: a two-character textual
/// prefix (not inspected) followed by at least one hex digit, whose
/// value must fit in a machine word. Anything else is malformed.
pub open spec fn addr_of_text(s: Seq<char>) -> Option<usize> {
    if s.len() > 2 && (forall|i: int| 2 <= i < s.len() ==> is_hex_digit(s[i])) && hex_val(
        s.skip(2),
    ) <= usize::MAX {
        Some(hex_val(s.skip(2)) as usize)
    } else {
        None
    }
}

/// A longer digit string never denotes a smaller value.
proof fn lemma_hex_val_prefix(s: Seq<char>, i: int)
    requires
        0 <= i <= s.len(),
    ensures
        hex_val(s.take(i)) <= hex_val(s),
    decreases s.len() - i,
{
    if i < s.len() {
        lemma_hex_val_prefix(s, i + 1);
        assert(s.take(i + 1).drop_last() =~= s.take(i));
        assert(hex_val(s.take(i + 1)) == hex_val(s.take(i)) * 16 + hex_digit_val(s.take(i + 1).last()));
        assert(hex_val(s.take(i)) * 16 >= hex_val(s.take(i))) by (nonlinear_arith);
    } else {
        assert(s.take(i) =~= s);
    }
}

/// Converts an address string, mirroring `addr_of_text` exactly.
pub fn parse_address(addr: &str) -> (r: Option<usize>)
    ensures
        r == addr_of_text(addr@),
{
    let n = addr.unicode_len();
    if n <= 2 {
        return None;
    }
    let mut val: usize = 0;
    let mut i: usize = 2;
    while i < n
        invariant
            2 <= i <= n,
            n == addr@.len(),
            forall|j: int| 2 <= j < i ==> is_hex_digit(addr@[j]),
            val == hex_val(addr@.subrange(2, i as int)),
        decreases n - i,
    {
        let c = addr.get_char(i);
        let u = c as u32;
        let d: usize = if u >= 0x30 && u <= 0x39 {
            (u - 0x30) as usize
        } else if u >= 0x61 && u <= 0x66 {
            (u - 0x61 + 10) as usize
        } else if u >= 0x41 && u <= 0x46 {
            (u - 0x41 + 10) as usize
        } else {
            return None;
        };
        assert(is_hex_digit(c) && d == hex_digit_val(c));
        if val > (usize::MAX - d) / 16 {
            proof {
                assert(val * 16 + d > usize::MAX) by (nonlinear_arith)
                    requires
                        val > (usize::MAX - d) / 16,
                        d <= 15,
                ;
                assert(addr@.subrange(2, i as int + 1).drop_last() =~= addr@.subrange(2, i as int));
                assert(addr@.subrange(2, i as int + 1).last() == addr@[i as int]);
                lemma_hex_val_prefix(addr@.skip(2), i - 2 + 1);
                assert(addr@.skip(2).take(i - 2 + 1) =~= addr@.subrange(2, i as int + 1));
            }
            return None;
        }
        proof {
            assert(val * 16 + d <= usize::MAX) by (nonlinear_arith)
                requires
                    val <= (usize::MAX - d) / 16,
                    d <= 15,
            ;
            assert(addr@.subrange(2, i as int + 1).drop_last() =~= addr@.subrange(2, i as int));
            assert(addr@.subrange(2, i as int + 1).last() == addr@[i as int]);
        }
        val = val * 16 + d;
        i = i + 1;
    }
    proof {
        assert(addr@.subrange(2, n as int) =~= addr@.skip(2));
    }
    Some(val)
}

/// A control character: the two Unicode control ranges.
pub open spec fn is_ctrl(c: char) -> bool {
    (c as u32) < 0x20 || (0x7f <= c as u32 && c as u32 <= 0x9f)
}

/// Backslashes are replaced by a distinguishable placeholder glyph so
/// that downstream text export stays well-formed.
pub open spec fn esc_char(c: char) -> char {
    if c == '\\' {
        '\u{fe68}'
    } else {
        c
    }
}

/// The cleaned rendering of the first `m` characters of a string value:
/// control characters removed, backslashes replaced.
pub open spec fn clean_prefix(v: Seq<char>, m: int) -> Seq<char>
    decreases m,
{
    if m <= 0 {
        Seq::empty()
    } else {
        clean_prefix(v, m - 1) + (if is_ctrl(v[m - 1]) {
            Seq::<char>::empty()
        } else {
            seq![esc_char(v[m - 1])]
        })
    }
}

/// The display rendering of a string value: the first 40 non-control
/// characters, escaped.
pub open spec fn clean_of(v: Seq<char>) -> Seq<char> {
    if clean_prefix(v, v.len() as int).len() <= 40 {
        clean_prefix(v, v.len() as int)
    } else {
        clean_prefix(v, v.len() as int).take(40)
    }
}

/// A shorter prefix of the value cleans to a prefix of the cleaned
/// whole.
proof fn lemma_clean_prefix_extends(v: Seq<char>, i: int, j: int)
    requires
        0 <= i <= j,
    ensures
        clean_prefix(v, i).len() <= clean_prefix(v, j).len(),
        clean_prefix(v, j).take(clean_prefix(v, i).len() as int) == clean_prefix(v, i),
    decreases j - i,
{
    if i < j {
        lemma_clean_prefix_extends(v, i, j - 1);
        assert(clean_prefix(v, j).take(clean_prefix(v, i).len() as int) =~= clean_prefix(v, i));
    } else {
        assert(clean_prefix(v, j).take(clean_prefix(v, i).len() as int) =~= clean_prefix(v, i));
    }
}

/// Renders a string value for display, mirroring `clean_of`: scans the
/// value until 40 non-control characters have been collected or it is
/// exhausted.
pub fn clean_string(v: &str) -> (r: String)
    ensures
        r@ == clean_of(v@),
{
    let n = v.unicode_len();
    let mut s = String::new();
    let mut i: usize = 0;
    let mut taken: usize = 0;
    while i < n && taken < 40
        invariant
            0 <= i <= n,
            n == v@.len(),
            s@ == clean_prefix(v@, i as int),
            taken == s@.len(),
            taken <= 40,
        decreases n - i,
    {
        let c = v.get_char(i);
        let u = c as u32;
        if !(u < 0x20 || (u >= 0x7f && u <= 0x9f)) {
            if c == '\\' {
                push_char(&mut s, '\u{fe68}');
            } else {
                push_char(&mut s, c);
            }
            taken = taken + 1;
        }
        i = i + 1;
    }
    proof {
        lemma_clean_prefix_extends(v@, i as int, v@.len() as int);
        if taken == 40 {
            assert(clean_prefix(v@, v@.len() as int).take(40) == s@);
        }
    }
    s
}

/// The object address a record declares: the address field when
/// present (`None` when that field is malformed), address 0 when
/// absent.
pub open spec fn spec_obj_addr(l: Line) -> Option<usize> {
    match l.address {
        Some(a) => addr_of_text(a@),
        None => Some(0usize),
    }
}

/// A record silently dropped before field validation: no address and
/// not root-kind.
pub open spec fn spec_pre_drop(l: Line) -> bool {
    spec_obj_addr(l) == Some(0usize) && l.object_type@ != "ROOT"@
}

/// A record silently dropped for a missing required kind-specific
/// field: an array without a length, a hash without a size.
pub open spec fn spec_field_drop(l: Line) -> bool {
    (l.object_type@ == "ARRAY"@ && l.length is None) || (l.object_type@ == "HASH"@
        && l.size is None)
}

/// Whether every reference string denotes an address.
pub open spec fn spec_refs_valid(l: Line) -> bool {
    forall|i: int| 0 <= i < l.references@.len() ==> addr_of_text(#[trigger] l.references@[i]@) is Some
}

/// The resolved reference address list.
pub open spec fn spec_refs(l: Line) -> Seq<usize> {
    Seq::new(
        l.references@.len(),
        |i: int|
            match addr_of_text(l.references@[i]@) {
                Some(v) => v,
                None => 0usize,
            },
    )
}

/// Whether the class field, if present, is malformed.
pub open spec fn spec_class_bad(l: Line) -> bool {
    match l.class {
        Some(c) => addr_of_text(c@) is None,
        None => false,
    }
}

/// The resolved class/module address.
pub open spec fn spec_module(l: Line) -> Option<usize> {
    match l.class {
        Some(c) => match addr_of_text(c@) {
            Some(v) => Some(v),
            None => None,
        },
        None => None,
    }
}

/// The kind-specific display label of a record whose required fields
/// are present.
pub open spec fn spec_label(l: Line) -> Option<Seq<char>> {
    if l.object_type@ == "CLASS"@ || l.object_type@ == "MODULE"@ || l.object_type@ == "ICLASS"@ {
        match l.name {
            Some(n) => Some(n@ + "["@ + l.object_type@ + "]"@),
            None => None,
        }
    } else if l.object_type@ == "ARRAY"@ {
        match l.length {
            Some(len) => Some("Array[len="@ + dec_of(len as nat) + "]"@),
            None => None,
        }
    } else if l.object_type@ == "HASH"@ {
        match l.size {
            Some(sz) => Some("Hash[size="@ + dec_of(sz as nat) + "]"@),
            None => None,
        }
    } else if l.object_type@ == "STRING"@ {
        match l.value {
            Some(v) => Some(clean_of(v@)),
            None => None,
        }
    } else {
        None
    }
}

/// A record that fails validation outright: a malformed address field,
/// or — for a record that is not dropped — a malformed reference or
/// class field.
pub open spec fn spec_line_err(l: Line) -> bool {
    spec_obj_addr(l) is None || (!spec_pre_drop(l) && !spec_field_drop(l) && (!spec_refs_valid(l)
        || spec_class_bad(l)))
}

/// Option views agree.
pub open spec fn label_agrees(got: Option<String>, want: Option<Seq<char>>) -> bool {
    match (got, want) {
        (Some(g), Some(w)) => g@ == w,
        (None, None) => true,
        _ => false,
    }
}

/// What holds of a record that parses successfully.
pub open spec fn parse_ok_props(l: Line, p: ParsedLine) -> bool {
    &&& Some(p.object.address) == spec_obj_addr(l)
    &&& p.object.bytes == (match l.memsize {
        Some(m) => m,
        None => 0usize,
    })
    &&& p.object.kind@ == l.object_type@
    &&& label_agrees(p.object.label, spec_label(l))
    &&& p.references@ == spec_refs(l)
    &&& p.module == spec_module(l)
    &&& label_agrees(p.name, match l.name {
        Some(n) => Some(n@),
        None => None,
    })
}

/// The seven kind literals are pairwise distinct.
proof fn lemma_kind_literals()
    ensures
        "ROOT"@.len() == 4,
        "CLASS"@.len() == 5,
        "MODULE"@.len() == 6,
        "ICLASS"@.len() == 6,
        "ARRAY"@.len() == 5,
        "HASH"@.len() == 4,
        "STRING"@.len() == 6,
        "ROOT"@[0] == 'R' && "HASH"@[0] == 'H',
        "CLASS"@[0] == 'C' && "ARRAY"@[0] == 'A',
        "MODULE"@[0] == 'M' && "ICLASS"@[0] == 'I' && "STRING"@[0] == 'S',
{
    reveal_strlit("ROOT");
    reveal_strlit("CLASS");
    reveal_strlit("MODULE");
    reveal_strlit("ICLASS");
    reveal_strlit("ARRAY");
    reveal_strlit("HASH");
    reveal_strlit("STRING");
}

impl Line {
    /// Validates one record. Returns the parsed record, `Ok(None)` for
    /// a record that is silently dropped (no address and not
    /// root-kind; array without length; hash without size), and an
    /// error for a record whose address, reference or class text is
    /// malformed.
    pub fn parse(self) -> (r: Result<Option<ParsedLine>, ParseError>)
        ensures
            r is Err <==> spec_line_err(self),
            (r matches Ok(None)) <==> (!spec_line_err(self) && (spec_pre_drop(self)
                || spec_field_drop(self))),
            r matches Ok(Some(p)) ==> parse_ok_props(self, p),
    {
        proof {
            lemma_kind_literals();
        }
        let address: usize = match &self.address {
            Some(a) => match parse_address(a.as_str()) {
                Some(v) => v,
                None => {
                    return Err(ParseError::Malformed(a.clone()));
                },
            },
            None => 0,
        };
        if address == 0 && !(self.object_type == String::from_str("ROOT")) {
            return Ok(None);
        }
        let label: Option<String> = if self.object_type == String::from_str("CLASS")
            || self.object_type == String::from_str("MODULE") || self.object_type == String::from_str(
            "ICLASS",
        ) {
            match &self.name {
                Some(n) => {
                    let mut s = n.clone();
                    s.append("[");
                    s.append(self.object_type.as_str());
                    s.append("]");
                    Some(s)
                },
                None => None,
            }
        } else if self.object_type == String::from_str("ARRAY") {
            match self.length {
                Some(len) => {
                    let mut s = String::from_str("Array[len=");
                    let d = usize_to_string(len);
                    s.append(d.as_str());
                    s.append("]");
                    Some(s)
                },
                None => {
                    return Ok(None);
                },
            }
        } else if self.object_type == String::from_str("HASH") {
            match self.size {
                Some(sz) => {
                    let mut s = String::from_str("Hash[size=");
                    let d = usize_to_string(sz);
                    s.append(d.as_str());
                    s.append("]");
                    Some(s)
                },
                None => {
                    return Ok(None);
                },
            }
        } else if self.object_type == String::from_str("STRING") {
            match &self.value {
                Some(v) => Some(clean_string(v.as_str())),
                None => None,
            }
        } else {
            None
        };
        let mut refs: Vec<usize> = Vec::new();
        let mut i: usize = 0;
        while i < self.references.len()
            invariant
                0 <= i <= self.references@.len(),
                forall|j: int|
                    0 <= j < i ==> addr_of_text(#[trigger] self.references@[j]@) is Some,
                refs@.len() == i,
                forall|j: int| 0 <= j < i ==> refs@[j] == spec_refs(self)[j],
            decreases self.references@.len() - i,
        {
            match parse_address(self.references[i].as_str()) {
                Some(v) => refs.push(v),
                None => {
                    return Err(ParseError::Malformed(self.references[i].clone()));
                },
            }
            i = i + 1;
        }
        let module: Option<usize> = match &self.class {
            Some(c) => match parse_address(c.as_str()) {
                Some(v) => Some(v),
                None => {
                    return Err(ParseError::Malformed(c.clone()));
                },
            },
            None => None,
        };
        proof {
            assert(refs@ =~= spec_refs(self));
        }
        Ok(
            Some(
                ParsedLine {
                    object: Object {
                        address,
                        bytes: match self.memsize {
                            Some(m) => m,
                            None => 0,
                        },
                        kind: self.object_type,
                        label,
                    },
                    references: refs,
                    module,
                    name: self.name,
                },
            ),
        )
    }
}

} // verus!
