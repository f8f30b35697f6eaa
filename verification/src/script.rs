//! Typed quest-script nodes: how a source text value is typed, how source
//! hrefs become the ids and row types a script row carries, and the field
//! shapes the audited opcodes are normalized to.

use vstd::prelude::*;
use crate::reference::{
    slug_of, slug_vec, canonical_zone_of, canonical_zone_vec, strip_xdb_suffix_of,
    strip_xdb_suffix_vec, slug_path_of, slug_path, last_marker, path_parts, path_parts_vec,
};
use crate::text::{
    is_digit, chars_of, string_of, eq_str, seq_eq, char_is_digit, slice_range, copy_chars,
    split, split_vec, views_of, keep_nonempty, keep_nonempty_vec, contains, find, rfind,
    occurs_at, is_last_occurrence, is_first_occurrence, push_str, push_chars, join, join_vec,
    replace_char, replace_char_vec, lower, lower_vec, lemma_split_nonempty,
};

verus! {

/// An exact decimal: `mantissa * 10^-scale`.
#[derive(Debug, Clone, Copy, PartialEq, Eq)]
pub struct Decimal {
    pub mantissa: i64,
    pub scale: i32,
}

/// A reference to another row by canonical id.
#[derive(Debug, Clone)]
pub struct Reference {
    pub id: String,
    pub row_type: Option<String>,
    /// The verbatim source href, kept as provenance only.
    pub href: Option<String>,
}

/// One typed value; exactly one field is set.
#[derive(Debug)]
pub struct ScriptValue {
    pub integer: Option<i64>,
    pub decimal: Option<Decimal>,
    pub boolean: Option<bool>,
    pub text: Option<String>,
    pub reference: Option<Reference>,
    pub duration_ms: Option<u64>,
    pub node: Option<Box<ScriptNode>>,
    pub list: Option<Vec<ScriptValue>>,
}

/// A named field of a node.
#[derive(Debug)]
pub struct ScriptField {
    pub name: String,
    pub value: ScriptValue,
}

/// One typed script node.
#[derive(Debug)]
pub struct ScriptNode {
    pub key: String,
    pub family: String,
    pub opcode: String,
    pub tier: String,
    pub fields: Vec<ScriptField>,
}

/// A value with no field set.
pub open spec fn is_blank(v: ScriptValue) -> bool {
    &&& v.integer is None
    &&& v.decimal is None
    &&& v.boolean is None
    &&& v.text is None
    &&& v.reference is None
    &&& v.duration_ms is None
    &&& v.node is None
    &&& v.list is None
}

pub fn blank_value() -> (v: ScriptValue)
    ensures
        is_blank(v),
{
    ScriptValue {
        integer: None,
        decimal: None,
        boolean: None,
        text: None,
        reference: None,
        duration_ms: None,
        node: None,
        list: None,
    }
}

pub fn integer_value(value: i64) -> (v: ScriptValue)
    ensures
        v.integer == Some(value),
        is_blank(ScriptValue { integer: None, ..v }),
{
    ScriptValue { integer: Some(value), ..blank_value() }
}

pub fn boolean_value(value: bool) -> (v: ScriptValue)
    ensures
        v.boolean == Some(value),
        is_blank(ScriptValue { boolean: None, ..v }),
{
    ScriptValue { boolean: Some(value), ..blank_value() }
}

pub fn decimal_value(value: Decimal) -> (v: ScriptValue)
    ensures
        v.decimal == Some(value),
        is_blank(ScriptValue { decimal: None, ..v }),
{
    ScriptValue { decimal: Some(value), ..blank_value() }
}

pub fn list_value(value: Vec<ScriptValue>) -> (v: ScriptValue)
    ensures
        v.list == Some(value),
        is_blank(ScriptValue { list: None, ..v }),
{
    ScriptValue { list: Some(value), ..blank_value() }
}

// ----- numbers --------------------------------------------------------------

pub open spec fn all_digits(s: Seq<char>) -> bool {
    forall|i: int| 0 <= i < s.len() ==> is_digit(#[trigger] s[i])
}

/// The number an ASCII digit string spells.
pub open spec fn digits_value(s: Seq<char>) -> int
    decreases s.len(),
{
    if s.len() == 0 {
        0
    } else {
        digits_value(s.drop_last()) * 10 + (s.last() as int - '0' as int)
    }
}

proof fn lemma_digits_grow(s: Seq<char>, k: int)
    requires
        all_digits(s),
        0 <= k <= s.len(),
    ensures
        digits_value(s.subrange(0, k)) <= digits_value(s),
        0 <= digits_value(s.subrange(0, k)),
    decreases s.len() - k,
{
    if k < s.len() {
        lemma_digits_grow(s, k + 1);
        let a = s.subrange(0, k + 1);
        assert(a.drop_last() =~= s.subrange(0, k));
        assert(is_digit(s[k]));
        lemma_digits_nonneg(s.subrange(0, k));
    } else {
        assert(s.subrange(0, k) =~= s);
        lemma_digits_nonneg(s);
    }
}

proof fn lemma_digits_nonneg(s: Seq<char>)
    requires
        all_digits(s),
    ensures
        0 <= digits_value(s),
    decreases s.len(),
{
    if s.len() > 0 {
        assert(is_digit(s[s.len() - 1]));
        lemma_digits_nonneg(s.drop_last());
    }
}

/// What `str::parse::<i64>` returns: an optional sign, then one or more ASCII
/// digits whose value fits.
pub open spec fn parse_i64_of(s: Seq<char>) -> Option<i64> {
    let signed = s.len() > 0 && (s[0] == '-' || s[0] == '+');
    let body = if signed { s.drop_first() } else { s };
    let magnitude = digits_value(body);
    let value = if s.len() > 0 && s[0] == '-' { -magnitude } else { magnitude };
    if body.len() == 0 || !all_digits(body) || value < i64::MIN || value > i64::MAX {
        None
    } else {
        Some(value as i64)
    }
}

/// Parses a digit string's value, `None` past `bound`.
fn digits_upto(s: &[char], from: usize, bound: u64) -> (r: Option<u64>)
    requires
        from <= s@.len(),
        all_digits(s@.skip(from as int)),
        bound >= 9,
    ensures
        r matches Some(v) ==> v == digits_value(s@.skip(from as int)) && v <= bound,
        r is None ==> digits_value(s@.skip(from as int)) > bound,
{
    let ghost body = s@.skip(from as int);
    let mut value: u64 = 0;
    let mut i: usize = from;
    assert(body.subrange(0, 0) =~= Seq::<char>::empty());
    while i < s.len()
        invariant
            from <= i <= s@.len(),
            body == s@.skip(from as int),
            all_digits(body),
            value == digits_value(body.subrange(0, i - from)),
            value <= bound,
            bound >= 9,
        decreases s@.len() - i,
    {
        let c = s[i];
        assert(c == body[i - from]);
        assert(is_digit(c));
        let d: u64 = (c as u32 - '0' as u32) as u64;
        assert(d <= 9);
        assert(body.subrange(0, i + 1 - from).drop_last() =~= body.subrange(0, i - from));
        if value > (bound - d) / 10 {
            proof {
                lemma_digits_grow(body, i + 1 - from);
                assert(digits_value(body.subrange(0, i + 1 - from)) == value * 10 + d);
                assert(value * 10 + d > bound) by (nonlinear_arith)
                    requires value > (bound - d) / 10, d <= 9, d <= bound;
            }
            return None;
        }
        proof {
            assert(value * 10 + d <= bound) by (nonlinear_arith)
                requires value <= (bound - d) / 10, d <= bound;
        }
        value = value * 10 + d;
        i = i + 1;
    }
    assert(body.subrange(0, s@.len() - from) =~= body);
    Some(value)
}

fn digits_only(s: &[char], from: usize) -> (r: bool)
    requires
        from <= s@.len(),
    ensures
        r == all_digits(s@.skip(from as int)),
{
    let mut i: usize = from;
    while i < s.len()
        invariant
            from <= i <= s@.len(),
            forall|k: int| from <= k < i ==> is_digit(#[trigger] s@[k]),
        decreases s@.len() - i,
    {
        if !char_is_digit(s[i]) {
            assert(s@.skip(from as int)[i - from] == s@[i as int]);
            return false;
        }
        i = i + 1;
    }
    assert forall|k: int| 0 <= k < s@.skip(from as int).len() implies is_digit(#[trigger] s@.skip(from as int)[k]) by {
        assert(s@.skip(from as int)[k] == s@[k + from]);
    }
    true
}

/// `str::parse::<i64>`.
pub fn parse_i64(s: &[char]) -> (r: Option<i64>)
    ensures
        r == parse_i64_of(s@),
{
    let signed = s.len() > 0 && (s[0] == '-' || s[0] == '+');
    let negative = s.len() > 0 && s[0] == '-';
    let from: usize = if signed { 1 } else { 0 };
    proof {
        if signed {
            assert(s@.skip(1) =~= s@.drop_first());
        } else {
            assert(s@.skip(0) =~= s@);
        }
    }
    if from == s.len() || !digits_only(s, from) {
        return None;
    }
    let bound: u64 = if negative { 9223372036854775808 } else { 9223372036854775807 };
    match digits_upto(s, from, bound) {
        None => None,
        Some(v) => {
            if negative {
                if v == 9223372036854775808 {
                    Some(i64::MIN)
                } else {
                    Some(-(v as i64))
                }
            } else {
                Some(v as i64)
            }
        },
    }
}

/// What `str::parse::<u64>` returns: an optional `+`, then one or more
/// ASCII digits whose value fits.
pub open spec fn parse_u64_of(s: Seq<char>) -> Option<u64> {
    let body = if s.len() > 0 && s[0] == '+' { s.drop_first() } else { s };
    if body.len() == 0 || !all_digits(body) || digits_value(body) > u64::MAX {
        None
    } else {
        Some(digits_value(body) as u64)
    }
}

/// `str::parse::<u64>`.
pub fn parse_u64(s: &[char]) -> (r: Option<u64>)
    ensures
        r == parse_u64_of(s@),
{
    let signed = s.len() > 0 && s[0] == '+';
    let from: usize = if signed { 1 } else { 0 };
    proof {
        if signed {
            assert(s@.skip(1) =~= s@.drop_first());
        } else {
            assert(s@.skip(0) =~= s@);
        }
    }
    if from == s.len() || !digits_only(s, from) {
        return None;
    }
    digits_upto(s, from, u64::MAX)
}

/// `-372.122009` is mantissa -372122009 at scale 6: an optional `-`, digits,
/// one `.`, digits, exact or nothing.
pub open spec fn parse_decimal_of(s: Seq<char>) -> Option<Decimal> {
    let negative = s.len() > 0 && s[0] == '-';
    let digits = if negative { s.drop_first() } else { s };
    let dot = choose|i: int| is_first_occurrence(digits, "."@, i);
    let whole = digits.subrange(0, dot);
    let fraction = digits.skip(dot + 1);
    let mantissa = digits_value(whole + fraction);
    if !contains(digits, "."@) || whole.len() == 0 || fraction.len() == 0 || !all_digits(whole)
        || !all_digits(fraction) || fraction.len() > i32::MAX || mantissa > i64::MAX {
        None
    } else {
        Some(Decimal {
            mantissa: if negative { (-mantissa) as i64 } else { mantissa as i64 },
            scale: fraction.len() as i32,
        })
    }
}

proof fn lemma_first_occurrence_unique(s: Seq<char>, p: Seq<char>, i: int, j: int)
    requires
        is_first_occurrence(s, p, i),
        is_first_occurrence(s, p, j),
    ensures
        i == j,
{
    if i < j {
        assert(!occurs_at(s, p, i));
    } else if j < i {
        assert(!occurs_at(s, p, j));
    }
}

/// Parses an exact decimal; `None` for anything else.
pub fn parse_decimal(content: &[char]) -> (r: Option<Decimal>)
    ensures
        r == parse_decimal_of(content@),
{
    let negative = content.len() > 0 && content[0] == '-';
    let digits = if negative {
        slice_range(content, 1, content.len())
    } else {
        copy_chars(content)
    };
    assert(negative ==> digits@ =~= content@.drop_first());
    let dot_pattern = chars_of(".");
    let dot = match find(digits.as_slice(), dot_pattern.as_slice()) {
        Some(i) => i,
        None => return None,
    };
    proof {
        reveal_strlit(".");
        let d = choose|i: int| is_first_occurrence(digits@, "."@, i);
        lemma_first_occurrence_unique(digits@, "."@, dot as int, d);
    }
    let whole = slice_range(digits.as_slice(), 0, dot);
    let fraction = slice_range(digits.as_slice(), dot + 1, digits.len());
    assert(fraction@ =~= digits@.skip(dot + 1));
    if whole.len() == 0 || fraction.len() == 0 || !digits_only(whole.as_slice(), 0)
        || !digits_only(fraction.as_slice(), 0) {
        proof {
            assert(whole@.skip(0) =~= whole@);
            assert(fraction@.skip(0) =~= fraction@);
        }
        return None;
    }
    proof {
        assert(whole@.skip(0) =~= whole@);
        assert(fraction@.skip(0) =~= fraction@);
    }
    if fraction.len() > 2147483647 {
        return None;
    }
    let mut joined = copy_chars(whole.as_slice());
    push_chars(&mut joined, fraction.as_slice());
    assert(joined@.skip(0) =~= whole@ + fraction@);
    assert(all_digits(joined@.skip(0))) by {
        assert forall|k: int| 0 <= k < joined@.skip(0).len() implies is_digit(#[trigger] joined@.skip(0)[k]) by {
            if k < whole@.len() {
                assert(joined@.skip(0)[k] == whole@[k]);
            } else {
                assert(joined@.skip(0)[k] == fraction@[k - whole@.len()]);
            }
        }
    }
    match digits_upto(joined.as_slice(), 0, 9223372036854775807) {
        None => None,
        Some(m) => {
            let mantissa: i64 = if negative { -(m as i64) } else { m as i64 };
            Some(Decimal { mantissa, scale: fraction.len() as i32 })
        },
    }
}

// ----- scalars --------------------------------------------------------------

/// How a text value is typed by its lexical shape.
pub open spec fn scalar_typed(content: Seq<char>, field_name: Seq<char>, v: ScriptValue) -> bool {
    if content == "true"@ || content == "false"@ {
        v.boolean == Some(content == "true"@) && is_blank(ScriptValue { boolean: None, ..v })
    } else if parse_i64_of(content) is Some {
        let n = parse_i64_of(content)->0;
        if field_name == "delay"@ && n >= 0 {
            v.duration_ms == Some(n as u64) && is_blank(ScriptValue { duration_ms: None, ..v })
        } else {
            v.integer == Some(n) && is_blank(ScriptValue { integer: None, ..v })
        }
    } else if parse_decimal_of(content) is Some {
        v.decimal == parse_decimal_of(content) && is_blank(ScriptValue { decimal: None, ..v })
    } else {
        v.text matches Some(t) && t@ == content && is_blank(ScriptValue { text: None, ..v })
    }
}

/// Types a text value by its lexical shape: booleans, integers (a
/// non-negative `delay` as milliseconds), exact decimals, else text.
pub fn scalar(content: &str, field_name: &str) -> (v: ScriptValue)
    ensures
        scalar_typed(content@, field_name@, v),
{
    let chars = chars_of(content);
    if eq_str(chars.as_slice(), "true") || eq_str(chars.as_slice(), "false") {
        return boolean_value(eq_str(chars.as_slice(), "true"));
    }
    match parse_i64(chars.as_slice()) {
        Some(n) => {
            let name = chars_of(field_name);
            if eq_str(name.as_slice(), "delay") && n >= 0 {
                return ScriptValue { duration_ms: Some(n as u64), ..blank_value() };
            }
            return integer_value(n);
        },
        None => {},
    }
    match parse_decimal(chars.as_slice()) {
        Some(d) => decimal_value(d),
        None => ScriptValue { text: Some(string_of(chars.as_slice())), ..blank_value() },
    }
}

// ----- ids from source paths ------------------------------------------------

/// `questcount.<zone>.<quest>.<count>` from
/// `World/Quests/<Zone>/<Quest>/<CountId>.xdb`.
pub open spec fn questcount_id_of(absolute: Seq<char>) -> Option<Seq<char>> {
    let parts = keep_nonempty(split(absolute, '/'));
    if parts.len() == 5 && parts[0] == "World"@ && parts[1] == "Quests"@ {
        Some("questcount."@ + canonical_zone_of(parts[2]) + "."@ + slug_of(parts[3]) + "."@
            + slug_of(strip_xdb_suffix_of(parts[4])))
    } else {
        None
    }
}

fn nonempty_pieces(s: &[char]) -> (out: Vec<Vec<char>>)
    ensures
        views_of(out@) == keep_nonempty(split(s@, '/')),
{
    let pieces = split_vec(s, '/');
    assert(views_of(pieces@) =~= split(s@, '/'));
    keep_nonempty_vec(&pieces)
}

pub fn questcount_id(absolute: &str) -> (out: Option<String>)
    ensures
        match (out, questcount_id_of(absolute@)) {
            (Some(a), Some(b)) => a@ == b,
            (None, None) => true,
            _ => false,
        },
{
    let chars = chars_of(absolute);
    let parts = nonempty_pieces(chars.as_slice());
    if parts.len() == 5 && eq_str(parts[0].as_slice(), "World") && eq_str(parts[1].as_slice(), "Quests") {
        let mut out: Vec<char> = Vec::new();
        push_str(&mut out, "questcount.");
        push_chars(&mut out, canonical_zone_vec(parts[2].as_slice()).as_slice());
        push_str(&mut out, ".");
        push_chars(&mut out, slug_vec(parts[3].as_slice()).as_slice());
        push_str(&mut out, ".");
        let stripped = strip_xdb_suffix_vec(parts[4].as_slice());
        push_chars(&mut out, slug_vec(stripped.as_slice()).as_slice());
        return Some(string_of(out.as_slice()));
    }
    None
}

/// `a/b/../c` collapsed: empty and `.` segments vanish, `..` drops the
/// segment before it.
pub open spec fn collapsed(pieces: Seq<Seq<char>>) -> Seq<Seq<char>>
    decreases pieces.len(),
{
    if pieces.len() == 0 {
        pieces
    } else {
        let r = collapsed(pieces.drop_last());
        let p = pieces.last();
        if p.len() == 0 || p == "."@ {
            r
        } else if p == ".."@ {
            if r.len() > 0 { r.drop_last() } else { r }
        } else {
            r.push(p)
        }
    }
}

pub open spec fn normalize_of(path: Seq<char>) -> Seq<char> {
    join(collapsed(split(path, '/')), "/"@)
}

/// Collapses `a/b/../c` the way the source tree's own relative hrefs use it.
pub fn normalize(path: &str) -> (out: String)
    ensures
        out@ == normalize_of(path@),
{
    let chars = chars_of(path);
    let pieces = split_vec(chars.as_slice(), '/');
    let ghost all = views_of(pieces@);
    assert(all =~= split(chars@, '/'));
    let mut kept: Vec<Vec<char>> = Vec::new();
    let mut i: usize = 0;
    while i < pieces.len()
        invariant
            i <= pieces@.len(),
            all == views_of(pieces@),
            views_of(kept@) == collapsed(all.subrange(0, i as int)),
        decreases pieces@.len() - i,
    {
        assert(all.subrange(0, i + 1).drop_last() =~= all.subrange(0, i as int));
        assert(all.subrange(0, i + 1).last() == pieces@[i as int]@);
        let ghost before = views_of(kept@);
        if pieces[i].len() == 0 || eq_str(pieces[i].as_slice(), ".") {
        } else if eq_str(pieces[i].as_slice(), "..") {
            if kept.len() > 0 {
                kept.pop();
                assert(views_of(kept@) =~= before.drop_last());
            }
        } else {
            kept.push(copy_chars(pieces[i].as_slice()));
            assert(views_of(kept@) =~= before.push(all[i as int]));
        }
        i = i + 1;
    }
    assert(all.subrange(0, pieces@.len() as int) =~= all);
    let slash = chars_of("/");
    string_of(join_vec(&kept, slash.as_slice()).as_slice())
}

/// The `(Marker)` in a file name, for hrefs that carry no xpointer: the text
/// between the last `.(` of the last path piece and the first `)` after it.
pub open spec fn marker_of_spec(absolute: Seq<char>) -> Option<Seq<char>> {
    let file = split(absolute, '/').last();
    if !contains(file, ".("@) {
        None
    } else {
        let rest = file.skip(last_marker(file) + 2);
        if !contains(rest, ")"@) {
            None
        } else {
            Some(rest.subrange(0, choose|i: int| is_first_occurrence(rest, ")"@, i)))
        }
    }
}

proof fn lemma_last_unique(s: Seq<char>, p: Seq<char>, i: int, j: int)
    requires
        is_last_occurrence(s, p, i),
        is_last_occurrence(s, p, j),
    ensures
        i == j,
{
    if i < j {
        assert(!occurs_at(s, p, j));
    } else if j < i {
        assert(!occurs_at(s, p, i));
    }
}

pub fn marker_of(absolute: &str) -> (out: Option<String>)
    ensures
        match (out, marker_of_spec(absolute@)) {
            (Some(a), Some(b)) => a@ == b,
            (None, None) => true,
            _ => false,
        },
{
    let chars = chars_of(absolute);
    let pieces = split_vec(chars.as_slice(), '/');
    proof { lemma_split_nonempty(chars@, '/'); }
    let file = copy_chars(pieces[pieces.len() - 1].as_slice());
    let open_pattern = chars_of(".(");
    let start = match rfind(file.as_slice(), open_pattern.as_slice()) {
        Some(i) => i,
        None => return None,
    };
    proof {
        reveal_strlit(".(");
        lemma_last_unique(file@, ".("@, start as int, last_marker(file@));
        assert(occurs_at(file@, ".("@, start as int));
        assert(start + 2 <= file@.len());
    }
    let n = file.len();
    assert(start + 2 <= n);
    let rest = slice_range(file.as_slice(), start + 2, n);
    assert(rest@ =~= file@.skip(start + 2));
    let close_pattern = chars_of(")");
    match find(rest.as_slice(), close_pattern.as_slice()) {
        Some(end) => {
            proof {
                let e = choose|i: int| is_first_occurrence(rest@, ")"@, i);
                lemma_first_occurrence_unique(rest@, ")"@, end as int, e);
            }
            Some(string_of(slice_range(rest.as_slice(), 0, end).as_slice()))
        },
        None => None,
    }
}

/// The row-type slug a source root element maps onto.
pub open spec fn row_type_slug_of(root: Seq<char>) -> Seq<char> {
    if root == "TriggerResource"@ {
        "trigger"@
    } else if root == "SpawnTable"@ || root == "MobSpawnTable"@ {
        "spawn-table"@
    } else if root == "MobWorld"@ {
        "mob"@
    } else if root == "QuestCountId"@ {
        "quest-count-id"@
    } else if root == "QuestResource"@ {
        "quest"@
    } else if root == "ItemResource"@ {
        "item"@
    } else {
        slug_of(root)
    }
}

pub fn row_type_slug(root_element: &str) -> (out: String)
    ensures
        out@ == row_type_slug_of(root_element@),
{
    let r = chars_of(root_element);
    let s = r.as_slice();
    if eq_str(s, "TriggerResource") {
        string_of(chars_of("trigger").as_slice())
    } else if eq_str(s, "SpawnTable") || eq_str(s, "MobSpawnTable") {
        string_of(chars_of("spawn-table").as_slice())
    } else if eq_str(s, "MobWorld") {
        string_of(chars_of("mob").as_slice())
    } else if eq_str(s, "QuestCountId") {
        string_of(chars_of("quest-count-id").as_slice())
    } else if eq_str(s, "QuestResource") {
        string_of(chars_of("quest").as_slice())
    } else if eq_str(s, "ItemResource") {
        string_of(chars_of("item").as_slice())
    } else {
        string_of(slug_vec(s).as_slice())
    }
}

/// The census family of a namespaced source type name.
pub open spec fn family_of_spec(t: Seq<char>) -> Seq<char> {
    if contains(t, ".elements.impacts."@) {
        "impact"@
    } else if contains(t, ".elements.predicates."@) {
        "predicate"@
    } else if contains(t, ".elements.effects."@) {
        "effect"@
    } else if contains(t, ".elements.addresseeFinders."@) {
        "addresseeFinder"@
    } else if contains(t, ".elements.calcers."@) {
        "calcer"@
    } else if contains(t, ".scalers."@) {
        "scaler"@
    } else if contains(t, ".basicElements."@) {
        "basic"@
    } else if contains(t, ".elements.trigger."@) || contains(t, ".schemes.quest.trigger."@) {
        "trigger"@
    } else {
        "impact"@
    }
}

fn holds(t: &[char], pattern: &str) -> (r: bool)
    ensures
        r == contains(t@, pattern@),
{
    let p = chars_of(pattern);
    find(t, p.as_slice()).is_some()
}

pub fn family_of(namespaced: &str) -> (out: &'static str)
    ensures
        out@ == family_of_spec(namespaced@),
{
    let t = chars_of(namespaced);
    let s = t.as_slice();
    if holds(s, ".elements.impacts.") {
        "impact"
    } else if holds(s, ".elements.predicates.") {
        "predicate"
    } else if holds(s, ".elements.effects.") {
        "effect"
    } else if holds(s, ".elements.addresseeFinders.") {
        "addresseeFinder"
    } else if holds(s, ".elements.calcers.") {
        "calcer"
    } else if holds(s, ".scalers.") {
        "scaler"
    } else if holds(s, ".basicElements.") {
        "basic"
    } else if holds(s, ".elements.trigger.") || holds(s, ".schemes.quest.trigger.") {
        "trigger"
    } else {
        "impact"
    }
}

/// The source-relative directory of a document: everything before its last
/// `/`, empty where there is none.
pub open spec fn parent_dir_of(p: Seq<char>) -> Seq<char> {
    if contains(p, "/"@) {
        p.subrange(0, choose|i: int| is_last_occurrence(p, "/"@, i))
    } else {
        Seq::<char>::empty()
    }
}

pub fn parent_dir(source_path: &str) -> (out: String)
    ensures
        out@ == parent_dir_of(source_path@),
{
    let chars = chars_of(source_path);
    let slash = chars_of("/");
    match rfind(chars.as_slice(), slash.as_slice()) {
        Some(i) => {
            proof {
                let j = choose|k: int| is_last_occurrence(chars@, "/"@, k);
                lemma_last_unique(chars@, "/"@, i as int, j);
            }
            string_of(slice_range(chars.as_slice(), 0, i).as_slice())
        },
        None => String::new(),
    }
}

/// The zone-scoped id of a trigger document: quest triggers by quest, mob
/// triggers by family, shared quest spells by directory, anything else by
/// its whole path flattened into one segment.
pub open spec fn trigger_id_of(zone_slug: Seq<char>, absolute: Seq<char>) -> Seq<char> {
    let parts = keep_nonempty(split(absolute, '/'));
    let n = parts.len();
    let file = if n > 0 { slug_of(strip_xdb_suffix_of(parts.last())) } else { Seq::<char>::empty() };
    if n >= 4 && parts[0] == "World"@ && parts[1] == "Quests"@ {
        "trigger."@ + canonical_zone_of(parts[2]) + "."@ + slug_of(parts[3]) + "."@ + file
    } else if n >= 4 && (parts[0] == "Characters"@ || parts[0] == "Creatures"@) && parts[2] == "Instances"@ {
        "trigger."@ + canonical_zone_of(parts[3]) + "."@ + slug_of(parts[1]) + "."@ + file
    } else if n >= 4 && parts[0] == "Mechanics"@ && parts[1] == "Spells"@ && parts[2] == "QuestSpells"@ {
        "trigger."@ + zone_slug + "."@ + slug_of(parts[3]) + "."@ + file
    } else {
        "trigger."@ + zone_slug + "."@ + replace_char(slug_path_of(parts), '.', '-')
    }
}

fn dotted(prefix: &str, a: &[char], b: &[char], c: &[char]) -> (out: Vec<char>)
    ensures
        out@ == prefix@ + a@ + "."@ + b@ + "."@ + c@,
{
    let mut out: Vec<char> = Vec::new();
    push_str(&mut out, prefix);
    push_chars(&mut out, a);
    push_str(&mut out, ".");
    push_chars(&mut out, b);
    push_str(&mut out, ".");
    push_chars(&mut out, c);
    assert(out@ =~= prefix@ + a@ + "."@ + b@ + "."@ + c@);
    out
}

pub fn trigger_id(zone_slug: &str, absolute: &str) -> (out: String)
    ensures
        out@ == trigger_id_of(zone_slug@, absolute@),
{
    let chars = chars_of(absolute);
    let zone = chars_of(zone_slug);
    let parts = nonempty_pieces(chars.as_slice());
    let n = parts.len();
    let file = if n > 0 {
        let stripped = strip_xdb_suffix_vec(parts[n - 1].as_slice());
        slug_vec(stripped.as_slice())
    } else {
        Vec::new()
    };
    let out = if n >= 4 && eq_str(parts[0].as_slice(), "World") && eq_str(parts[1].as_slice(), "Quests") {
        let z = canonical_zone_vec(parts[2].as_slice());
        let q = slug_vec(parts[3].as_slice());
        dotted("trigger.", z.as_slice(), q.as_slice(), file.as_slice())
    } else if n >= 4 && (eq_str(parts[0].as_slice(), "Characters") || eq_str(parts[0].as_slice(), "Creatures"))
        && eq_str(parts[2].as_slice(), "Instances") {
        let z = canonical_zone_vec(parts[3].as_slice());
        let f = slug_vec(parts[1].as_slice());
        dotted("trigger.", z.as_slice(), f.as_slice(), file.as_slice())
    } else if n >= 4 && eq_str(parts[0].as_slice(), "Mechanics") && eq_str(parts[1].as_slice(), "Spells")
        && eq_str(parts[2].as_slice(), "QuestSpells") {
        let d = slug_vec(parts[3].as_slice());
        dotted("trigger.", zone.as_slice(), d.as_slice(), file.as_slice())
    } else {
        let flat = slug_path(&parts, 0);
        assert(views_of(parts@).skip(0) =~= views_of(parts@));
        let dashed = replace_char_vec(flat.as_slice(), '.', '-');
        let mut out: Vec<char> = Vec::new();
        push_str(&mut out, "trigger.");
        push_chars(&mut out, zone.as_slice());
        push_str(&mut out, ".");
        push_chars(&mut out, dashed.as_slice());
        assert(out@ =~= "trigger."@ + zone@ + "."@ + dashed@);
        out
    };
    string_of(out.as_slice())
}

} // verus!
