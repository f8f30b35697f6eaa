//! The field shapes the audited script opcodes are normalized to, so the
//! runtime receives one shape even where the source omitted a default, and a
//! malformed row is stopped before it is blessed as implemented.

use vstd::prelude::*;
use crate::script::{
    ScriptField, ScriptValue, ScriptNode, Decimal, is_blank, integer_value, boolean_value, decimal_value,
    list_value,
};
use crate::scan::{lex_le, lex_le_exec, lemma_lex_total, lemma_lex_transitive};
use crate::text::{chars_of, string_of, eq_str, push_str};
use vstd::string::StrSliceExecFns;

verus! {

/// Why an audited opcode's fields were refused.
#[derive(Debug, Clone, PartialEq, Eq)]
pub enum ScriptError {
    RequiresField { key: String, opcode: String, name: String },
    NotMapPointer { key: String, opcode: String },
    MapNotReference { key: String, opcode: String },
    NotProductMap { key: String, opcode: String },
    ScriptIdEmpty { key: String, opcode: String },
    NotBoolean { key: String, opcode: String, name: String },
    NotInteger { key: String, opcode: String, name: String },
    NotList { key: String, opcode: String, name: String },
    NotDecimal { key: String, opcode: String },
    ParameterFree { key: String, opcode: String },
    NotScalerNode { key: String, opcode: String },
    ScalerFamily { key: String, opcode: String, family: String },
    BadGroup { key: String, opcode: String },
}

pub open spec fn script_error_text(e: ScriptError) -> Seq<char> {
    match e {
        ScriptError::RequiresField { key, opcode, name } => key@ + ": "@ + opcode@ + " requires field "@ + name@,
        ScriptError::NotMapPointer { key, opcode } => key@ + ": "@ + opcode@ + ".locator is not a MapPointer record"@,
        ScriptError::MapNotReference { key, opcode } => key@ + ": "@ + opcode@ + ".locator.map is not a content reference"@,
        ScriptError::NotProductMap { key, opcode } => key@ + ": "@ + opcode@
            + ".locator.map is not a canonical product map reference"@,
        ScriptError::ScriptIdEmpty { key, opcode } => key@ + ": "@ + opcode@ + ".locator.scriptID is empty or not text"@,
        ScriptError::NotBoolean { key, opcode, name } => key@ + ": "@ + opcode@ + "."@ + name@ + " is not boolean"@,
        ScriptError::NotInteger { key, opcode, name } => key@ + ": "@ + opcode@ + "."@ + name@ + " is not integer"@,
        ScriptError::NotList { key, opcode, name } => key@ + ": "@ + opcode@ + "."@ + name@ + " is not a list"@,
        ScriptError::NotDecimal { key, opcode } => key@ + ": "@ + opcode@ + ".scanRadius is not decimal"@,
        ScriptError::ParameterFree { key, opcode } => key@ + ": "@ + opcode@ + " is parameter-free"@,
        ScriptError::NotScalerNode { key, opcode } => key@ + ": "@ + opcode@ + ".scaler is not a scaler node"@,
        ScriptError::ScalerFamily { key, opcode, family } => key@ + ": "@ + opcode@ + ".scaler has family "@ + family@
            + ", want scaler"@,
        ScriptError::BadGroup { key, opcode } => key@ + ": "@ + opcode@ + ".group is not a content reference or group id"@,
    }
}

impl ScriptError {
    pub fn message(&self) -> (r: String)
        ensures
            r@ == script_error_text(*self),
    {
        let mut out: Vec<char> = Vec::new();
        match self {
            ScriptError::RequiresField { key, opcode, name } => {
                push_str(&mut out, key.as_str());
                push_str(&mut out, ": ");
                push_str(&mut out, opcode.as_str());
                push_str(&mut out, " requires field ");
                push_str(&mut out, name.as_str());
            },
            ScriptError::NotMapPointer { key, opcode } => {
                push_str(&mut out, key.as_str());
                push_str(&mut out, ": ");
                push_str(&mut out, opcode.as_str());
                push_str(&mut out, ".locator is not a MapPointer record");
            },
            ScriptError::MapNotReference { key, opcode } => {
                push_str(&mut out, key.as_str());
                push_str(&mut out, ": ");
                push_str(&mut out, opcode.as_str());
                push_str(&mut out, ".locator.map is not a content reference");
            },
            ScriptError::NotProductMap { key, opcode } => {
                push_str(&mut out, key.as_str());
                push_str(&mut out, ": ");
                push_str(&mut out, opcode.as_str());
                push_str(&mut out, ".locator.map is not a canonical product map reference");
            },
            ScriptError::ScriptIdEmpty { key, opcode } => {
                push_str(&mut out, key.as_str());
                push_str(&mut out, ": ");
                push_str(&mut out, opcode.as_str());
                push_str(&mut out, ".locator.scriptID is empty or not text");
            },
            ScriptError::NotBoolean { key, opcode, name } => {
                push_str(&mut out, key.as_str());
                push_str(&mut out, ": ");
                push_str(&mut out, opcode.as_str());
                push_str(&mut out, ".");
                push_str(&mut out, name.as_str());
                push_str(&mut out, " is not boolean");
            },
            ScriptError::NotInteger { key, opcode, name } => {
                push_str(&mut out, key.as_str());
                push_str(&mut out, ": ");
                push_str(&mut out, opcode.as_str());
                push_str(&mut out, ".");
                push_str(&mut out, name.as_str());
                push_str(&mut out, " is not integer");
            },
            ScriptError::NotList { key, opcode, name } => {
                push_str(&mut out, key.as_str());
                push_str(&mut out, ": ");
                push_str(&mut out, opcode.as_str());
                push_str(&mut out, ".");
                push_str(&mut out, name.as_str());
                push_str(&mut out, " is not a list");
            },
            ScriptError::NotDecimal { key, opcode } => {
                push_str(&mut out, key.as_str());
                push_str(&mut out, ": ");
                push_str(&mut out, opcode.as_str());
                push_str(&mut out, ".scanRadius is not decimal");
            },
            ScriptError::ParameterFree { key, opcode } => {
                push_str(&mut out, key.as_str());
                push_str(&mut out, ": ");
                push_str(&mut out, opcode.as_str());
                push_str(&mut out, " is parameter-free");
            },
            ScriptError::NotScalerNode { key, opcode } => {
                push_str(&mut out, key.as_str());
                push_str(&mut out, ": ");
                push_str(&mut out, opcode.as_str());
                push_str(&mut out, ".scaler is not a scaler node");
            },
            ScriptError::ScalerFamily { key, opcode, family } => {
                push_str(&mut out, key.as_str());
                push_str(&mut out, ": ");
                push_str(&mut out, opcode.as_str());
                push_str(&mut out, ".scaler has family ");
                push_str(&mut out, family.as_str());
                push_str(&mut out, ", want scaler");
            },
            ScriptError::BadGroup { key, opcode } => {
                push_str(&mut out, key.as_str());
                push_str(&mut out, ": ");
                push_str(&mut out, opcode.as_str());
                push_str(&mut out, ".group is not a content reference or group id");
            },
        }
        assert(out@ =~= script_error_text(*self));
        string_of(out.as_slice())
    }
}

// ----- fields by name ----------------------------------------------------------------

/// The position of the first field named `name`.
pub open spec fn field_index(fs: Seq<ScriptField>, name: Seq<char>) -> Option<int>
    decreases fs.len(),
{
    if fs.len() == 0 {
        None
    } else {
        match field_index(fs.drop_last(), name) {
            Some(i) => Some(i),
            None => if fs.last().name@ == name { Some(fs.len() - 1) } else { None },
        }
    }
}

proof fn lemma_field_index(fs: Seq<ScriptField>, name: Seq<char>)
    ensures
        field_index(fs, name) matches Some(i) ==> 0 <= i < fs.len() && fs[i].name@ == name
            && forall|j: int| 0 <= j < i ==> (#[trigger] fs[j]).name@ != name,
        field_index(fs, name) is None ==> forall|j: int| 0 <= j < fs.len() ==> (#[trigger] fs[j]).name@ != name,
    decreases fs.len(),
{
    if fs.len() > 0 {
        lemma_field_index(fs.drop_last(), name);
        assert forall|j: int| 0 <= j < fs.len() - 1 implies fs.drop_last()[j] == #[trigger] fs[j] by {}
    }
}

/// The position of the first field named `name`.
pub fn find_field(fields: &Vec<ScriptField>, name: &str) -> (r: Option<usize>)
    ensures
        match r {
            Some(i) => field_index(fields@, name@) == Some(i as int),
            None => field_index(fields@, name@) is None,
        },
{
    let n = chars_of(name);
    let mut i: usize = 0;
    proof { lemma_field_index(fields@, name@); }
    while i < fields.len()
        invariant
            i <= fields@.len(),
            n@ == name@,
            forall|j: int| 0 <= j < i ==> (#[trigger] fields@[j]).name@ != name@,
        decreases fields@.len() - i,
    {
        if eq_str(n.as_slice(), fields[i].name.as_str()) {
            proof {
                lemma_field_index(fields@, name@);
                if let Some(k) = field_index(fields@, name@) {
                    if k > i {
                        assert(fields@[i as int].name@ == name@);
                    }
                }
            }
            return Some(i);
        }
        i = i + 1;
    }
    None
}

/// `fs` with `d` added at the end unless a field of its name exists.
pub open spec fn with_default(fs: Seq<ScriptField>, d: ScriptField) -> Seq<ScriptField> {
    if field_index(fs, d.name@) is None { fs.push(d) } else { fs }
}

/// Adds a default field unless one of its name exists.
pub fn push_default(fields: &mut Vec<ScriptField>, name: &str, value: ScriptValue)
    ensures
        exists|d: ScriptField| d.name@ == name@ && d.value == value && final(fields)@ == with_default(old(fields)@, d),
{
    let n = string_of(chars_of(name).as_slice());
    match find_field(fields, name) {
        Some(_) => {
            let d = ScriptField { name: n, value };
            assert(fields@ == with_default(old(fields)@, d));
        },
        None => {
            let d = ScriptField { name: n, value };
            let ghost dv = d;
            fields.push(d);
            assert(fields@ == with_default(old(fields)@, dv));
        },
    }
}

fn own(s: &str) -> (out: String)
    ensures
        out@ == s@,
{
    string_of(chars_of(s).as_slice())
}

/// Whether the first field named `name` exists and holds what `pred`
/// tests for.
pub open spec fn required_ok(fs: Seq<ScriptField>, name: Seq<char>, kind: nat) -> Option<bool> {
    match field_index(fs, name) {
        None => None,
        Some(i) => Some(if kind == 0 { fs[i].value.boolean is Some } else if kind == 1 { fs[i].value.integer is Some } else { fs[i].value.list is Some }),
    }
}

/// The first field named `name`.
pub fn required_field<'a>(fields: &'a Vec<ScriptField>, name: &str, key: &str, opcode: &str) -> (r: Result<&'a ScriptField, ScriptError>)
    ensures
        match field_index(fields@, name@) {
            Some(i) => r matches Ok(f) && *f == fields@[i],
            None => r matches Err(ScriptError::RequiresField { key: k, opcode: o, name: n }) && k@ == key@ && o@ == opcode@ && n@ == name@,
        },
{
    proof { lemma_field_index(fields@, name@); }
    match find_field(fields, name) {
        Some(i) => Ok(&fields[i]),
        None => Err(ScriptError::RequiresField { key: own(key), opcode: own(opcode), name: own(name) }),
    }
}

/// Refuses a missing field `name`, or one that does not hold a boolean.
pub fn require_boolean(fields: &Vec<ScriptField>, name: &str, key: &str, opcode: &str) -> (r: Result<(), ScriptError>)
    ensures
        match required_ok(fields@, name@, 0) {
            Some(true) => r is Ok,
            Some(false) => r matches Err(ScriptError::NotBoolean { key: k, opcode: o, name: n }) && k@ == key@ && o@ == opcode@ && n@ == name@,
            None => r matches Err(ScriptError::RequiresField { key: k, opcode: o, name: n }) && k@ == key@ && o@ == opcode@ && n@ == name@,
        },
{
    match required_field(fields, name, key, opcode) {
        Err(e) => Err(e),
        Ok(f) => if f.value.boolean.is_some() {
            Ok(())
        } else {
            Err(ScriptError::NotBoolean { key: own(key), opcode: own(opcode), name: own(name) })
        },
    }
}

/// Refuses a missing field `name`, or one that does not hold a integer.
pub fn require_integer(fields: &Vec<ScriptField>, name: &str, key: &str, opcode: &str) -> (r: Result<(), ScriptError>)
    ensures
        match required_ok(fields@, name@, 1) {
            Some(true) => r is Ok,
            Some(false) => r matches Err(ScriptError::NotInteger { key: k, opcode: o, name: n }) && k@ == key@ && o@ == opcode@ && n@ == name@,
            None => r matches Err(ScriptError::RequiresField { key: k, opcode: o, name: n }) && k@ == key@ && o@ == opcode@ && n@ == name@,
        },
{
    match required_field(fields, name, key, opcode) {
        Err(e) => Err(e),
        Ok(f) => if f.value.integer.is_some() {
            Ok(())
        } else {
            Err(ScriptError::NotInteger { key: own(key), opcode: own(opcode), name: own(name) })
        },
    }
}

/// Refuses a missing field `name`, or one that does not hold a list.
pub fn require_list(fields: &Vec<ScriptField>, name: &str, key: &str, opcode: &str) -> (r: Result<(), ScriptError>)
    ensures
        match required_ok(fields@, name@, 2) {
            Some(true) => r is Ok,
            Some(false) => r matches Err(ScriptError::NotList { key: k, opcode: o, name: n }) && k@ == key@ && o@ == opcode@ && n@ == name@,
            None => r matches Err(ScriptError::RequiresField { key: k, opcode: o, name: n }) && k@ == key@ && o@ == opcode@ && n@ == name@,
        },
{
    match required_field(fields, name, key, opcode) {
        Err(e) => Err(e),
        Ok(f) => if f.value.list.is_some() {
            Ok(())
        } else {
            Err(ScriptError::NotList { key: own(key), opcode: own(opcode), name: own(name) })
        },
    }
}

/// Refuses a missing `scaler` field, one that holds no node, or a node of
/// another family.
pub open spec fn scaler_failure(fs: Seq<ScriptField>) -> Option<nat> {
    match field_index(fs, "scaler"@) {
        None => Some(0),
        Some(i) => match fs[i].value.node {
            None => Some(1),
            Some(n) => if n.family@ != "scaler"@ { Some(2) } else { None },
        },
    }
}

pub fn require_scaler(fields: &Vec<ScriptField>, key: &str, opcode: &str) -> (r: Result<(), ScriptError>)
    ensures
        match scaler_failure(fields@) {
            None => r is Ok,
            Some(w) => if w == 0 {
                r matches Err(ScriptError::RequiresField { key: k, opcode: o, name: n }) && k@ == key@ && o@ == opcode@ && n@ == "scaler"@
            } else if w == 1 {
                r matches Err(ScriptError::NotScalerNode { key: k, opcode: o }) && k@ == key@ && o@ == opcode@
            } else {
                r matches Err(ScriptError::ScalerFamily { key: k, opcode: o, family: f }) && k@ == key@ && o@ == opcode@
                    && f@ == fields@[field_index(fields@, "scaler"@)->0].value.node->0.family@
            },
        },
{
    let field = match required_field(fields, "scaler", key, opcode) {
        Ok(f) => f,
        Err(e) => return Err(e),
    };
    match &field.value.node {
        None => Err(ScriptError::NotScalerNode { key: own(key), opcode: own(opcode) }),
        Some(n) => if eq_str(chars_of(n.family.as_str()).as_slice(), "scaler") {
            Ok(())
        } else {
            Err(ScriptError::ScalerFamily { key: own(key), opcode: own(opcode), family: own(n.family.as_str()) })
        },
    }
}

// ----- ordering fields ------------------------------------------------------------------

pub open spec fn insert_field(s: Seq<ScriptField>, x: ScriptField) -> Seq<ScriptField>
    decreases s.len(),
{
    if s.len() == 0 {
        seq![x]
    } else if lex_le(s.last().name@, x.name@) {
        s.push(x)
    } else {
        insert_field(s.drop_last(), x).push(s.last())
    }
}

/// The fields in ascending name order, fields of one name in input order.
pub open spec fn sorted_fields(s: Seq<ScriptField>) -> Seq<ScriptField>
    decreases s.len(),
{
    if s.len() == 0 { s } else { insert_field(sorted_fields(s.drop_last()), s.last()) }
}

/// Fields in ascending name order.
pub open spec fn fields_ascending(s: Seq<ScriptField>) -> bool {
    forall|a: int, b: int| 0 <= a < b < s.len() ==> lex_le((#[trigger] s[a]).name@, (#[trigger] s[b]).name@)
}

proof fn lemma_insert_field(s: Seq<ScriptField>, x: ScriptField)
    ensures
        insert_field(s, x).len() == s.len() + 1,
        forall|i: int| 0 <= i < insert_field(s, x).len()
            ==> (#[trigger] insert_field(s, x)[i]) == x || s.contains(insert_field(s, x)[i]),
        insert_field(s, x).contains(x),
        forall|j: int| 0 <= j < s.len() ==> insert_field(s, x).contains(#[trigger] s[j]),
        fields_ascending(s) ==> fields_ascending(insert_field(s, x)),
    decreases s.len(),
{
    let r = insert_field(s, x);
    if s.len() == 0 {
        assert(r[0] == x);
    } else if lex_le(s.last().name@, x.name@) {
        assert(r == s.push(x));
        assert(r[s.len() as int] == x);
        assert forall|i: int| 0 <= i < r.len() implies (#[trigger] r[i]) == x || s.contains(r[i]) by {
            if i < s.len() {
                assert(r[i] == s[i]);
            }
        }
        assert forall|j: int| 0 <= j < s.len() implies r.contains(#[trigger] s[j]) by {
            assert(r[j] == s[j]);
        }
        if fields_ascending(s) {
            assert forall|a: int, b: int| 0 <= a < b < r.len() implies lex_le((#[trigger] r[a]).name@, (#[trigger] r[b]).name@) by {
                if b < s.len() {
                    assert(r[a] == s[a] && r[b] == s[b]);
                } else {
                    assert(r[a] == s[a]);
                    if a < s.len() - 1 {
                        assert(lex_le(s[a].name@, s[s.len() - 1].name@));
                        lemma_lex_transitive(s[a].name@, s.last().name@, x.name@);
                    }
                }
            }
        }
    } else {
        let t = s.drop_last();
        let q = insert_field(t, x);
        lemma_insert_field(t, x);
        assert(r == q.push(s.last()));
        assert(r[q.len() as int] == s.last());
        assert forall|i: int| 0 <= i < r.len() implies (#[trigger] r[i]) == x || s.contains(r[i]) by {
            if i < q.len() {
                assert(r[i] == q[i]);
                if q[i] != x {
                    assert(t.contains(q[i]));
                    let j = choose|j: int| 0 <= j < t.len() && t[j] == q[i];
                    assert(s[j] == t[j]);
                }
            } else {
                assert(s[s.len() - 1] == s.last());
            }
        }
        assert(r.contains(x)) by {
            let k = choose|k: int| 0 <= k < q.len() && q[k] == x;
            assert(r[k] == q[k]);
        }
        assert forall|j: int| 0 <= j < s.len() implies r.contains(#[trigger] s[j]) by {
            if j < s.len() - 1 {
                assert(t[j] == s[j]);
                assert(q.contains(t[j]));
                let k = choose|k: int| 0 <= k < q.len() && q[k] == t[j];
                assert(r[k] == q[k]);
            }
        }
        if fields_ascending(s) {
            assert(fields_ascending(t)) by {
                assert forall|a: int, b: int| 0 <= a < b < t.len() implies lex_le((#[trigger] t[a]).name@, (#[trigger] t[b]).name@) by {
                    assert(t[a] == s[a] && t[b] == s[b]);
                }
            }
            lemma_lex_total(s.last().name@, x.name@);
            assert forall|a: int, b: int| 0 <= a < b < r.len() implies lex_le((#[trigger] r[a]).name@, (#[trigger] r[b]).name@) by {
                if b < q.len() {
                    assert(r[a] == q[a] && r[b] == q[b]);
                } else {
                    assert(r[a] == q[a]);
                    if q[a] != x {
                        assert(t.contains(q[a]));
                        let j = choose|j: int| 0 <= j < t.len() && t[j] == q[a];
                        assert(s[j] == t[j]);
                        assert(lex_le(s[j].name@, s[s.len() - 1].name@));
                    }
                }
            }
        }
    }
}

proof fn lemma_sorted_fields(s: Seq<ScriptField>)
    ensures
        fields_ascending(sorted_fields(s)),
        sorted_fields(s).len() == s.len(),
        forall|i: int| 0 <= i < sorted_fields(s).len() ==> s.contains(#[trigger] sorted_fields(s)[i]),
        forall|j: int| 0 <= j < s.len() ==> sorted_fields(s).contains(#[trigger] s[j]),
    decreases s.len(),
{
    if s.len() > 0 {
        let t = s.drop_last();
        lemma_sorted_fields(t);
        let q = sorted_fields(t);
        lemma_insert_field(q, s.last());
        let r = sorted_fields(s);
        assert(r == insert_field(q, s.last()));
        assert forall|i: int| 0 <= i < r.len() implies s.contains(#[trigger] r[i]) by {
            if r[i] == s.last() {
                assert(s[s.len() - 1] == s.last());
            } else {
                assert(q.contains(r[i]));
                let k = choose|k: int| 0 <= k < q.len() && q[k] == r[i];
                assert(t.contains(q[k]));
                let j = choose|j: int| 0 <= j < t.len() && t[j] == q[k];
                assert(s[j] == t[j]);
            }
        }
        assert forall|j: int| 0 <= j < s.len() implies r.contains(#[trigger] s[j]) by {
            if j < s.len() - 1 {
                assert(t[j] == s[j]);
                assert(q.contains(t[j]));
                let k = choose|k: int| 0 <= k < q.len() && q[k] == t[j];
                assert(r.contains(q[k]));
            } else {
                assert(s[j] == s.last());
            }
        }
    }
}

fn insert_field_vec(out: &mut Vec<ScriptField>, x: ScriptField)
    ensures
        final(out)@ == insert_field(old(out)@, x),
{
    let ghost s0 = out@;
    let ghost xv = x;
    let mut j = out.len();
    assert(s0.take(j as int) =~= s0);
    while j > 0 && !lex_le_exec(chars_of(out[j - 1].name.as_str()).as_slice(), chars_of(x.name.as_str()).as_slice())
        invariant
            j <= out@.len(),
            s0 == out@,
            xv == x,
            insert_field(s0, xv) == insert_field(s0.take(j as int), xv) + s0.skip(j as int),
        decreases j,
    {
        assert(s0.take(j as int).last() == s0[j - 1]);
        assert(s0.take(j as int).drop_last() =~= s0.take(j - 1));
        assert(s0.skip(j - 1) =~= seq![s0[j - 1]] + s0.skip(j as int));
        assert(insert_field(s0.take(j - 1), xv).push(s0[j - 1]) + s0.skip(j as int)
            =~= insert_field(s0.take(j - 1), xv) + s0.skip(j - 1));
        j = j - 1;
    }
    proof {
        if j > 0 {
            assert(s0.take(j as int).last() == s0[j - 1]);
            assert(insert_field(s0.take(j as int), xv) == s0.take(j as int).push(xv));
        } else {
            assert(insert_field(s0.take(0), xv) == seq![xv]);
        }
    }
    out.insert(j, x);
    assert(out@ =~= s0.take(j as int).push(xv) + s0.skip(j as int));
}

/// The fields sorted bytewise by name, stably.
pub fn sort_fields(fields: Vec<ScriptField>) -> (out: Vec<ScriptField>)
    ensures
        out@ == sorted_fields(fields@),
{
    let ghost fv = fields@;
    let mut rest = fields;
    let mut out: Vec<ScriptField> = Vec::new();
    let ghost mut i: int = 0;
    assert(fv.take(0) =~= Seq::<ScriptField>::empty());
    assert(fv.skip(0) =~= fv);
    while rest.len() > 0
        invariant
            0 <= i <= fv.len(),
            rest@ == fv.skip(i),
            out@ == sorted_fields(fv.take(i)),
        decreases rest@.len(),
    {
        let x = rest.remove(0);
        assert(fv.skip(i)[0] == x);
        assert(fv.take(i + 1).drop_last() =~= fv.take(i));
        assert(fv.take(i + 1).last() == fv[i]);
        insert_field_vec(&mut out, x);
        proof {
            assert(fv.skip(i).drop_first() =~= fv.skip(i + 1));
            i = i + 1;
        }
    }
    assert(fv.take(i) =~= fv);
    out
}

// ----- the audited opcodes --------------------------------------------------------------

pub open spec fn int_value(n: i64) -> ScriptValue {
    ScriptValue { integer: Some(n), decimal: None, boolean: None, text: None, reference: None, duration_ms: None, node: None, list: None }
}

pub open spec fn bool_value(b: bool) -> ScriptValue {
    ScriptValue { integer: None, decimal: None, boolean: Some(b), text: None, reference: None, duration_ms: None, node: None, list: None }
}

pub open spec fn dec_value(mantissa: i64, scale: i32) -> ScriptValue {
    ScriptValue {
        integer: None, decimal: Some(Decimal { mantissa, scale }), boolean: None, text: None, reference: None,
        duration_ms: None, node: None, list: None,
    }
}

/// A value that is an empty list and nothing else.
pub open spec fn empty_list(v: ScriptValue) -> bool {
    v.list matches Some(l) && l@.len() == 0 && is_blank(ScriptValue { list: None, ..v })
}

/// A field named `name` holding `value`.
pub open spec fn field_is(f: ScriptField, name: Seq<char>, value: ScriptValue) -> bool {
    f.name@ == name && f.value == value
}

pub open spec fn errs_with(r: Result<Vec<ScriptField>, ScriptError>, e: Seq<char>) -> bool {
    r matches Err(err) && script_error_text(err) == e
}

pub open spec fn ok_with(r: Result<Vec<ScriptField>, ScriptError>, fs: Seq<ScriptField>) -> bool {
    r matches Ok(out) && out@ == fs
}

/// The text of a `requires field` failure.
pub open spec fn requires_text(key: Seq<char>, opcode: Seq<char>, name: Seq<char>) -> Seq<char> {
    key + ": "@ + opcode + " requires field "@ + name
}

pub open spec fn kind_text(key: Seq<char>, opcode: Seq<char>, name: Seq<char>, kind: nat) -> Seq<char> {
    key + ": "@ + opcode + "."@ + name + if kind == 0 { " is not boolean"@ } else if kind == 1 { " is not integer"@ } else { " is not a list"@ }
}

/// What requiring field `name` of kind `kind` in `fs` says, if it fails.
pub open spec fn need_text(fs: Seq<ScriptField>, key: Seq<char>, opcode: Seq<char>, name: Seq<char>, kind: nat) -> Option<Seq<char>> {
    match required_ok(fs, name, kind) {
        None => Some(requires_text(key, opcode, name)),
        Some(false) => Some(kind_text(key, opcode, name, kind)),
        Some(true) => None,
    }
}

pub open spec fn scaler_text(fs: Seq<ScriptField>, key: Seq<char>, opcode: Seq<char>) -> Option<Seq<char>> {
    match scaler_failure(fs) {
        None => None,
        Some(w) => Some(if w == 0 {
            requires_text(key, opcode, "scaler"@)
        } else if w == 1 {
            key + ": "@ + opcode + ".scaler is not a scaler node"@
        } else {
            key + ": "@ + opcode + ".scaler has family "@ + fs[field_index(fs, "scaler"@)->0].value.node->0.family@ + ", want scaler"@
        }),
    }
}

/// The first of two failures, in order.
pub open spec fn or_else(first: Option<Seq<char>>, second: Option<Seq<char>>) -> Option<Seq<char>> {
    if first is Some { first } else { second }
}

/// The answer for a `DestinationLocator`: its locator must be a MapPointer
/// record naming a product map and a script id; `yaw` defaults to 0.
pub open spec fn locator_text(fs: Seq<ScriptField>, key: Seq<char>, opcode: Seq<char>) -> Option<Seq<char>> {
    match field_index(fs, "locator"@) {
        None => Some(requires_text(key, opcode, "locator"@)),
        Some(i) => match fs[i].value.node {
            None => Some(key + ": "@ + opcode + ".locator is not a MapPointer record"@),
            Some(b) => if b.family@ != "basic"@ || b.opcode@ != "Struct"@ {
                Some(key + ": "@ + opcode + ".locator is not a MapPointer record"@)
            } else {
                match field_index(b.fields@, "map"@) {
                    None => Some(requires_text(b.key@, "MapPointer"@, "map"@)),
                    Some(m) => match b.fields@[m].value.reference {
                        None => Some(key + ": "@ + opcode + ".locator.map is not a content reference"@),
                        Some(r) => if crate::source::opt_view(r.row_type) != Some("map"@) || r.id@.len() == 0 {
                            Some(key + ": "@ + opcode + ".locator.map is not a canonical product map reference"@)
                        } else {
                            match field_index(b.fields@, "scriptID"@) {
                                None => Some(requires_text(b.key@, "MapPointer"@, "scriptID"@)),
                                Some(t) => match b.fields@[t].value.text {
                                    Some(x) if x@.len() > 0 => None,
                                    _ => Some(key + ": "@ + opcode + ".locator.scriptID is empty or not text"@),
                                },
                            }
                        },
                    },
                }
            },
        },
    }
}

/// The fields without any named `name`.
pub open spec fn without_name(fs: Seq<ScriptField>, name: Seq<char>) -> Seq<ScriptField>
    decreases fs.len(),
{
    if fs.len() == 0 {
        fs
    } else if fs.last().name@ == name {
        without_name(fs.drop_last(), name)
    } else {
        without_name(fs.drop_last(), name).push(fs.last())
    }
}

/// A `scanRadius` given as an integer becomes that many units at scale 0.
pub open spec fn guard_radius(f: Seq<ScriptField>) -> Seq<ScriptField> {
    let k = field_index(f, "scanRadius"@)->0;
    match f[k].value.integer {
        Some(n) => f.update(k, ScriptField { name: f[k].name, value: dec_value(n, 0) }),
        None => f,
    }
}

/// A `DestinationLocator`: its locator must be a MapPointer record naming a
/// product map and a script id; `yaw` defaults to 0 and must be an integer.
pub open spec fn locator_canonical(opcode: Seq<char>, key: Seq<char>, input: Seq<ScriptField>, r: Result<Vec<ScriptField>, ScriptError>) -> bool {
    match locator_text(input, key, opcode) {
        Some(e) => errs_with(r, e),
        None => exists|d: ScriptField| field_is(d, "yaw"@, int_value(0)) && ({
            let f = with_default(input, d);
            match need_text(f, key, opcode, "yaw"@, 1) {
                Some(e) => errs_with(r, e),
                None => ok_with(r, sorted_fields(f)),
            }
        }),
    }
}

/// A `Guard`: `noticeTarget` defaults to false and must be a boolean;
/// `scanRadius` defaults to 42.5 and must be a decimal, an integer radius
/// becoming a decimal at scale 0.
pub open spec fn guard_canonical(opcode: Seq<char>, key: Seq<char>, input: Seq<ScriptField>, r: Result<Vec<ScriptField>, ScriptError>) -> bool {
    exists|d1: ScriptField, d2: ScriptField| field_is(d1, "noticeTarget"@, bool_value(false))
        && field_is(d2, "scanRadius"@, dec_value(425, 1)) && ({
        let f = with_default(with_default(input, d1), d2);
        match need_text(f, key, opcode, "noticeTarget"@, 0) {
            Some(e) => errs_with(r, e),
            None => {
                let k = field_index(f, "scanRadius"@)->0;
                if f[k].value.integer is None && f[k].value.decimal is None {
                    errs_with(r, key + ": "@ + opcode + ".scanRadius is not decimal"@)
                } else {
                    ok_with(r, sorted_fields(guard_radius(f)))
                }
            },
        }
    })
}

/// A `PredicateIsAvatar` is parameter-free once its `toLog` fields are dropped.
pub open spec fn avatar_canonical(opcode: Seq<char>, key: Seq<char>, input: Seq<ScriptField>, r: Result<Vec<ScriptField>, ScriptError>) -> bool {
    if without_name(input, "toLog"@).len() > 0 {
        errs_with(r, key + ": "@ + opcode + " is parameter-free"@)
    } else {
        ok_with(r, Seq::empty())
    }
}

/// A `ScalerAllInputDamage`: `attackerConditions` defaults to an empty list,
/// `onlyFromCaster` to false and `stackCount` to 1; each is checked, and so is
/// the `scaler` node.
pub open spec fn input_damage_canonical(opcode: Seq<char>, key: Seq<char>, input: Seq<ScriptField>, r: Result<Vec<ScriptField>, ScriptError>) -> bool {
    exists|d1: ScriptField, d2: ScriptField, d3: ScriptField| d1.name@ == "attackerConditions"@ && empty_list(d1.value)
        && field_is(d2, "onlyFromCaster"@, bool_value(false)) && field_is(d3, "stackCount"@, int_value(1)) && ({
        let f = with_default(with_default(with_default(input, d1), d2), d3);
        match or_else(need_text(f, key, opcode, "attackerConditions"@, 2), or_else(need_text(f, key, opcode, "onlyFromCaster"@, 0),
            or_else(scaler_text(f, key, opcode), need_text(f, key, opcode, "stackCount"@, 1)))) {
            Some(e) => errs_with(r, e),
            None => ok_with(r, sorted_fields(f)),
        }
    })
}

/// A `ScalerAllOutputDamage`: `stackCount` defaults to 1; the `scaler` node
/// and `stackCount` are checked, and a `group` must be a reference or text.
pub open spec fn output_damage_canonical(opcode: Seq<char>, key: Seq<char>, input: Seq<ScriptField>, r: Result<Vec<ScriptField>, ScriptError>) -> bool {
    exists|d: ScriptField| field_is(d, "stackCount"@, int_value(1)) && ({
        let f = with_default(input, d);
        let group_bad = match field_index(f, "group"@) {
            Some(g) => f[g].value.reference is None && f[g].value.text is None,
            None => false,
        };
        match or_else(scaler_text(f, key, opcode), or_else(need_text(f, key, opcode, "stackCount"@, 1),
            if group_bad { Some(key + ": "@ + opcode + ".group is not a content reference or group id"@) } else { None })) {
            Some(e) => errs_with(r, e),
            None => ok_with(r, sorted_fields(f)),
        }
    })
}

/// How the fields of an audited opcode are normalized: defaults for the
/// fields the source omitted, checks on what each field holds, and the
/// fields sorted by name; any other opcode's fields pass unchanged.
pub open spec fn canonical(opcode: Seq<char>, key: Seq<char>, input: Seq<ScriptField>, r: Result<Vec<ScriptField>, ScriptError>) -> bool {
    if opcode == "DestinationLocator"@ {
        locator_canonical(opcode, key, input, r)
    } else if opcode == "Guard"@ {
        guard_canonical(opcode, key, input, r)
    } else if opcode == "PredicateIsAvatar"@ {
        avatar_canonical(opcode, key, input, r)
    } else if opcode == "ScalerAllInputDamage"@ {
        input_damage_canonical(opcode, key, input, r)
    } else if opcode == "ScalerAllOutputDamage"@ {
        output_damage_canonical(opcode, key, input, r)
    } else {
        ok_with(r, input)
    }
}

proof fn lemma_with_default(fs: Seq<ScriptField>, d: ScriptField)
    ensures
        forall|j: int| 0 <= j < fs.len() ==> with_default(fs, d).contains(#[trigger] fs[j]),
        exists|k: int| 0 <= k < with_default(fs, d).len() && (#[trigger] with_default(fs, d)[k]).name@ == d.name@,
        field_index(fs, d.name@) is None ==> with_default(fs, d).contains(d),
{
    lemma_field_index(fs, d.name@);
    let w = with_default(fs, d);
    assert forall|j: int| 0 <= j < fs.len() implies w.contains(#[trigger] fs[j]) by {
        assert(w[j] == fs[j]);
    }
    if field_index(fs, d.name@) is None {
        assert(w[fs.len() as int] == d);
    } else {
        let i = field_index(fs, d.name@)->0;
        assert(w[i] == fs[i]);
    }
}

/// A field list an audited opcode accepts comes out in ascending name order
/// and keeps every field the source gave (a `Guard`'s integer `scanRadius`
/// aside, which becomes a decimal); an omitted `stackCount` of either
/// damage scaler comes out as the integer 1; any other opcode's fields come
/// out as given.
pub proof fn lemma_accepted_fields(opcode: Seq<char>, key: Seq<char>, input: Seq<ScriptField>,
    r: Result<Vec<ScriptField>, ScriptError>)
    requires
        canonical(opcode, key, input, r),
        r is Ok,
    ensures
        (opcode == "DestinationLocator"@ || opcode == "Guard"@ || opcode == "PredicateIsAvatar"@
            || opcode == "ScalerAllInputDamage"@ || opcode == "ScalerAllOutputDamage"@)
            ==> fields_ascending(r->Ok_0@),
        (opcode == "DestinationLocator"@ || opcode == "ScalerAllInputDamage"@ || opcode == "ScalerAllOutputDamage"@)
            ==> forall|j: int| 0 <= j < input.len() ==> r->Ok_0@.contains(#[trigger] input[j]),
        (opcode == "ScalerAllInputDamage"@ || opcode == "ScalerAllOutputDamage"@)
            && field_index(input, "stackCount"@) is None
            ==> exists|k: int| 0 <= k < r->Ok_0@.len() && field_is(#[trigger] r->Ok_0@[k], "stackCount"@, int_value(1)),
        opcode == "PredicateIsAvatar"@ ==> r->Ok_0@.len() == 0,
        !(opcode == "DestinationLocator"@ || opcode == "Guard"@ || opcode == "PredicateIsAvatar"@
            || opcode == "ScalerAllInputDamage"@ || opcode == "ScalerAllOutputDamage"@)
            ==> r->Ok_0@ == input,
{
    reveal_strlit("DestinationLocator");
    reveal_strlit("Guard");
    reveal_strlit("PredicateIsAvatar");
    reveal_strlit("ScalerAllInputDamage");
    reveal_strlit("ScalerAllOutputDamage");
    reveal_strlit("stackCount");
    assert("ScalerAllInputDamage"@ != "ScalerAllOutputDamage"@) by {
        assert("ScalerAllInputDamage"@[9] != "ScalerAllOutputDamage"@[9]);
    }
    let out = r->Ok_0@;
    if opcode == "DestinationLocator"@ {
        let d = choose|d: ScriptField| field_is(d, "yaw"@, int_value(0)) && ({
            let f = with_default(input, d);
            match need_text(f, key, opcode, "yaw"@, 1) {
                Some(e) => errs_with(r, e),
                None => ok_with(r, sorted_fields(f)),
            }
        });
        let f = with_default(input, d);
        lemma_with_default(input, d);
        lemma_sorted_fields(f);
        assert forall|j: int| 0 <= j < input.len() implies out.contains(#[trigger] input[j]) by {
            let k = choose|k: int| 0 <= k < f.len() && f[k] == input[j];
            assert(out.contains(f[k]));
        }
    } else if opcode == "Guard"@ {
        let (d1, d2) = choose|d1: ScriptField, d2: ScriptField| field_is(d1, "noticeTarget"@, bool_value(false))
            && field_is(d2, "scanRadius"@, dec_value(425, 1)) && ({
            let f = with_default(with_default(input, d1), d2);
            match need_text(f, key, opcode, "noticeTarget"@, 0) {
                Some(e) => errs_with(r, e),
                None => {
                    let k = field_index(f, "scanRadius"@)->0;
                    if f[k].value.integer is None && f[k].value.decimal is None {
                        errs_with(r, key + ": "@ + opcode + ".scanRadius is not decimal"@)
                    } else {
                        ok_with(r, sorted_fields(guard_radius(f)))
                    }
                },
            }
        });
        let f = with_default(with_default(input, d1), d2);
        lemma_sorted_fields(guard_radius(f));
    } else if opcode == "PredicateIsAvatar"@ {
    } else if opcode == "ScalerAllInputDamage"@ {
        let (d1, d2, d3) = choose|d1: ScriptField, d2: ScriptField, d3: ScriptField| d1.name@ == "attackerConditions"@
            && empty_list(d1.value) && field_is(d2, "onlyFromCaster"@, bool_value(false))
            && field_is(d3, "stackCount"@, int_value(1)) && ({
            let f = with_default(with_default(with_default(input, d1), d2), d3);
            match or_else(need_text(f, key, opcode, "attackerConditions"@, 2), or_else(need_text(f, key, opcode, "onlyFromCaster"@, 0),
                or_else(scaler_text(f, key, opcode), need_text(f, key, opcode, "stackCount"@, 1)))) {
                Some(e) => errs_with(r, e),
                None => ok_with(r, sorted_fields(f)),
            }
        });
        let f1 = with_default(input, d1);
        let f2 = with_default(f1, d2);
        let f = with_default(f2, d3);
        lemma_with_default(input, d1);
        lemma_with_default(f1, d2);
        lemma_with_default(f2, d3);
        lemma_sorted_fields(f);
        assert forall|j: int| 0 <= j < input.len() implies out.contains(#[trigger] input[j]) by {
            let k1 = choose|k: int| 0 <= k < f1.len() && f1[k] == input[j];
            assert(f2.contains(f1[k1]));
            let k2 = choose|k: int| 0 <= k < f2.len() && f2[k] == input[j];
            assert(f.contains(f2[k2]));
            let k3 = choose|k: int| 0 <= k < f.len() && f[k] == input[j];
            assert(out.contains(f[k3]));
        }
        if field_index(input, "stackCount"@) is None {
            lemma_field_index(input, "stackCount"@);
            lemma_field_index(f1, "stackCount"@);
            lemma_field_index(f2, "stackCount"@);
            assert(d1.name@ != "stackCount"@) by {
                reveal_strlit("attackerConditions");
            }
            assert(d2.name@ != "stackCount"@) by {
                reveal_strlit("onlyFromCaster");
            }
            assert(field_index(f1, "stackCount"@) is None) by {
                assert forall|j: int| 0 <= j < f1.len() implies (#[trigger] f1[j]).name@ != "stackCount"@ by {
                    if j < input.len() { assert(f1[j] == input[j]); }
                }
            }
            assert(field_index(f2, "stackCount"@) is None) by {
                assert forall|j: int| 0 <= j < f2.len() implies (#[trigger] f2[j]).name@ != "stackCount"@ by {
                    if j < f1.len() { assert(f2[j] == f1[j]); }
                }
            }
            let k = choose|k: int| 0 <= k < f.len() && f[k] == d3;
            assert(out.contains(f[k]));
            let m = choose|m: int| 0 <= m < out.len() && out[m] == f[k];
            assert(field_is(out[m], "stackCount"@, int_value(1)));
        }
    } else if opcode == "ScalerAllOutputDamage"@ {
        let d = choose|d: ScriptField| field_is(d, "stackCount"@, int_value(1)) && ({
            let f = with_default(input, d);
            let group_bad = match field_index(f, "group"@) {
                Some(g) => f[g].value.reference is None && f[g].value.text is None,
                None => false,
            };
            match or_else(scaler_text(f, key, opcode), or_else(need_text(f, key, opcode, "stackCount"@, 1),
                if group_bad { Some(key + ": "@ + opcode + ".group is not a content reference or group id"@) } else { None })) {
                Some(e) => errs_with(r, e),
                None => ok_with(r, sorted_fields(f)),
            }
        });
        let f = with_default(input, d);
        lemma_with_default(input, d);
        lemma_sorted_fields(f);
        assert forall|j: int| 0 <= j < input.len() implies out.contains(#[trigger] input[j]) by {
            let k = choose|k: int| 0 <= k < f.len() && f[k] == input[j];
            assert(out.contains(f[k]));
        }
        if field_index(input, "stackCount"@) is None {
            let k = choose|k: int| 0 <= k < f.len() && f[k] == d;
            assert(out.contains(f[k]));
            let m = choose|m: int| 0 <= m < out.len() && out[m] == f[k];
            assert(field_is(out[m], "stackCount"@, int_value(1)));
        }
    }
}

fn locator_check(fields: &Vec<ScriptField>, key: &str, opcode: &str) -> (r: Result<(), ScriptError>)
    ensures
        match locator_text(fields@, key@, opcode@) {
            None => r is Ok,
            Some(e) => r matches Err(err) && script_error_text(err) == e,
        },
{
    let locator = match required_field(fields, "locator", key, opcode) {
        Ok(f) => f,
        Err(e) => return Err(e),
    };
    let b = match &locator.value.node {
        Some(b) => b,
        None => return Err(ScriptError::NotMapPointer { key: own(key), opcode: own(opcode) }),
    };
    if !eq_str(chars_of(b.family.as_str()).as_slice(), "basic") || !eq_str(chars_of(b.opcode.as_str()).as_slice(), "Struct") {
        return Err(ScriptError::NotMapPointer { key: own(key), opcode: own(opcode) });
    }
    let map = match required_field(&b.fields, "map", b.key.as_str(), "MapPointer") {
        Ok(f) => f,
        Err(e) => return Err(e),
    };
    let reference = match &map.value.reference {
        Some(r) => r,
        None => return Err(ScriptError::MapNotReference { key: own(key), opcode: own(opcode) }),
    };
    let is_map = match &reference.row_type {
        Some(t) => eq_str(chars_of(t.as_str()).as_slice(), "map"),
        None => false,
    };
    if !is_map || reference.id.as_str().unicode_len() == 0 {
        return Err(ScriptError::NotProductMap { key: own(key), opcode: own(opcode) });
    }
    let script_id = match required_field(&b.fields, "scriptID", b.key.as_str(), "MapPointer") {
        Ok(f) => f,
        Err(e) => return Err(e),
    };
    let has_text = match &script_id.value.text {
        Some(t) => t.as_str().unicode_len() > 0,
        None => false,
    };
    if !has_text {
        return Err(ScriptError::ScriptIdEmpty { key: own(key), opcode: own(opcode) });
    }
    Ok(())
}

fn locator_fields(opcode: &str, key: &str, input: Vec<ScriptField>) -> (r: Result<Vec<ScriptField>, ScriptError>)
    ensures
        locator_canonical(opcode@, key@, input@, r),
{
    let ghost iv = input@;
    match locator_check(&input, key, opcode) {
        Err(e) => return Err(e),
        Ok(()) => {},
    }
    let mut f = input;
    push_default(&mut f, "yaw", integer_value(0));
    let ghost d = choose|d: ScriptField| d.name@ == "yaw"@ && d.value == int_value(0) && f@ == with_default(iv, d);
    match require_integer(&f, "yaw", key, opcode) {
        Err(e) => {
            assert(field_is(d, "yaw"@, int_value(0)));
            return Err(e);
        },
        Ok(()) => {},
    }
    let out = sort_fields(f);
    assert(field_is(d, "yaw"@, int_value(0)));
    return Ok(out);
}

fn guard_fields(opcode: &str, key: &str, input: Vec<ScriptField>) -> (r: Result<Vec<ScriptField>, ScriptError>)
    ensures
        guard_canonical(opcode@, key@, input@, r),
{
    let ghost iv = input@;
    let mut f = input;
    push_default(&mut f, "noticeTarget", boolean_value(false));
    let ghost f1 = f@;
    let ghost d1 = choose|d: ScriptField| d.name@ == "noticeTarget"@ && d.value == bool_value(false) && f1 == with_default(iv, d);
    push_default(&mut f, "scanRadius", decimal_value(Decimal { mantissa: 425, scale: 1 }));
    let ghost d2 = choose|d: ScriptField| d.name@ == "scanRadius"@ && d.value == dec_value(425, 1) && f@ == with_default(f1, d);
    assert(field_is(d1, "noticeTarget"@, bool_value(false)) && field_is(d2, "scanRadius"@, dec_value(425, 1)));
    match require_boolean(&f, "noticeTarget", key, opcode) {
        Err(e) => return Err(e),
        Ok(()) => {},
    }
    proof { lemma_field_index(f@, "scanRadius"@); lemma_field_index(f1, "scanRadius"@); }
    let k = find_field(&f, "scanRadius").unwrap();
    let integer = f[k].value.integer;
    let has_decimal = f[k].value.decimal.is_some();
    match integer {
        Some(n) => {
            let ghost before = f@;
            let (name, _old) = take_field(&mut f, k);
            f.insert(k, ScriptField { name, value: decimal_value(Decimal { mantissa: n, scale: 0 }) });
            assert(f@ =~= guard_radius(before));
        },
        None => {
            if !has_decimal {
                return Err(ScriptError::NotDecimal { key: own(key), opcode: own(opcode) });
            }
            assert(guard_radius(f@) == f@);
        },
    }
    return Ok(sort_fields(f));
}

fn avatar_fields(opcode: &str, key: &str, input: Vec<ScriptField>) -> (r: Result<Vec<ScriptField>, ScriptError>)
    ensures
        avatar_canonical(opcode@, key@, input@, r),
{
    let ghost iv = input@;
    let kept = drop_named(input, "toLog");
    if kept.len() > 0 {
        return Err(ScriptError::ParameterFree { key: own(key), opcode: own(opcode) });
    }
    let out: Vec<ScriptField> = Vec::new();
    assert(out@ =~= Seq::<ScriptField>::empty());
    return Ok(out);
}

fn input_damage_fields(opcode: &str, key: &str, input: Vec<ScriptField>) -> (r: Result<Vec<ScriptField>, ScriptError>)
    ensures
        input_damage_canonical(opcode@, key@, input@, r),
{
    let ghost iv = input@;
    let mut f = input;
    push_default(&mut f, "attackerConditions", list_value(Vec::new()));
    let ghost f1 = f@;
    let ghost d1 = choose|d: ScriptField| d.name@ == "attackerConditions"@ && empty_list(d.value) && f1 == with_default(iv, d);
    push_default(&mut f, "onlyFromCaster", boolean_value(false));
    let ghost f2 = f@;
    let ghost d2 = choose|d: ScriptField| d.name@ == "onlyFromCaster"@ && d.value == bool_value(false) && f2 == with_default(f1, d);
    push_default(&mut f, "stackCount", integer_value(1));
    let ghost d3 = choose|d: ScriptField| d.name@ == "stackCount"@ && d.value == int_value(1) && f@ == with_default(f2, d);
    assert(d1.name@ == "attackerConditions"@ && empty_list(d1.value) && field_is(d2, "onlyFromCaster"@, bool_value(false))
        && field_is(d3, "stackCount"@, int_value(1)));
    match require_list(&f, "attackerConditions", key, opcode) {
        Err(e) => return Err(e),
        Ok(()) => {},
    }
    match require_boolean(&f, "onlyFromCaster", key, opcode) {
        Err(e) => return Err(e),
        Ok(()) => {},
    }
    match require_scaler(&f, key, opcode) {
        Err(e) => return Err(e),
        Ok(()) => {},
    }
    match require_integer(&f, "stackCount", key, opcode) {
        Err(e) => return Err(e),
        Ok(()) => {},
    }
    return Ok(sort_fields(f));
}

fn output_damage_fields(opcode: &str, key: &str, input: Vec<ScriptField>) -> (r: Result<Vec<ScriptField>, ScriptError>)
    ensures
        output_damage_canonical(opcode@, key@, input@, r),
{
    let ghost iv = input@;
    let mut f = input;
    push_default(&mut f, "stackCount", integer_value(1));
    let ghost d = choose|d: ScriptField| d.name@ == "stackCount"@ && d.value == int_value(1) && f@ == with_default(iv, d);
    assert(field_is(d, "stackCount"@, int_value(1)));
    proof { lemma_field_index(f@, "group"@); }
    let group_bad = match find_field(&f, "group") {
        Some(g) => f[g].value.reference.is_none() && f[g].value.text.is_none(),
        None => false,
    };
    match require_scaler(&f, key, opcode) {
        Err(e) => return Err(e),
        Ok(()) => {},
    }
    match require_integer(&f, "stackCount", key, opcode) {
        Err(e) => return Err(e),
        Ok(()) => {},
    }
    if group_bad {
        return Err(ScriptError::BadGroup { key: own(key), opcode: own(opcode) });
    }
    return Ok(sort_fields(f));
}

/// Normalizes the fields of the audited opcodes; any other opcode's fields
/// pass unchanged.
pub fn canonical_opcode_fields(opcode: &str, key: &str, fields: Vec<ScriptField>) -> (r: Result<Vec<ScriptField>, ScriptError>)
    ensures
        canonical(opcode@, key@, fields@, r),
{
    let op = chars_of(opcode);
    if eq_str(op.as_slice(), "DestinationLocator") {
        locator_fields(opcode, key, fields)
    } else if eq_str(op.as_slice(), "Guard") {
        guard_fields(opcode, key, fields)
    } else if eq_str(op.as_slice(), "PredicateIsAvatar") {
        avatar_fields(opcode, key, fields)
    } else if eq_str(op.as_slice(), "ScalerAllInputDamage") {
        input_damage_fields(opcode, key, fields)
    } else if eq_str(op.as_slice(), "ScalerAllOutputDamage") {
        output_damage_fields(opcode, key, fields)
    } else {
        Ok(fields)
    }
}

/// Takes field `k` out, leaving the others in place.
fn take_field(fields: &mut Vec<ScriptField>, k: usize) -> (r: (String, ScriptValue))
    requires
        k < old(fields)@.len(),
    ensures
        final(fields)@ == old(fields)@.remove(k as int),
        r.0 == old(fields)@[k as int].name,
        r.1 == old(fields)@[k as int].value,
{
    let f = fields.remove(k);
    (f.name, f.value)
}

/// The fields without any named `name`.
fn drop_named(fields: Vec<ScriptField>, name: &str) -> (out: Vec<ScriptField>)
    ensures
        out@ == without_name(fields@, name@),
{
    let ghost fv = fields@;
    let n = chars_of(name);
    let mut rest = fields;
    let mut out: Vec<ScriptField> = Vec::new();
    let ghost mut i: int = 0;
    assert(fv.take(0) =~= Seq::<ScriptField>::empty());
    assert(fv.skip(0) =~= fv);
    while rest.len() > 0
        invariant
            0 <= i <= fv.len(),
            n@ == name@,
            rest@ == fv.skip(i),
            out@ == without_name(fv.take(i), name@),
        decreases rest@.len(),
    {
        let x = rest.remove(0);
        assert(fv.skip(i)[0] == x);
        assert(fv.take(i + 1).drop_last() =~= fv.take(i));
        assert(fv.take(i + 1).last() == x);
        if !eq_str(n.as_slice(), x.name.as_str()) {
            out.push(x);
        }
        proof {
            assert(fv.skip(i).drop_first() =~= fv.skip(i + 1));
            i = i + 1;
        }
    }
    assert(fv.take(i) =~= fv);
    out
}

} // verus!
