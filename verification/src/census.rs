//! How many extracted quests the server's objective rules can serve.

use vstd::prelude::*;
use vstd::utf8::encode_utf8;
use vstd::string::StrSliceExecFns;
use crate::text::{chars_of, string_of, eq_str, seq_eq, push_str, push_chars, push_decimal, decimal, join, join_vec, views_of};
use crate::scan::{lex_le, lex_le_exec, text_views, lemma_lex_total, lemma_lex_transitive, lemma_lex_antisym};
use crate::report::{tally_add, tally_views, tally_wf, count_in};

verus! {

/// The objective kinds the server can run.
pub open spec fn supported_kind(k: Seq<char>) -> bool {
    k == "quest-count-kill"@ || k == "quest-count-item"@
}

/// One objective as the census reads it.
#[derive(Debug)]
pub struct Objective {
    pub kind: Option<String>,
    pub limit: u64,
    /// How many targets the objective names.
    pub targets: usize,
}

/// One quest document as the census reads it.
#[derive(Debug)]
pub struct QuestDocument {
    pub id: Option<String>,
    pub objectives: Vec<Objective>,
}

/// The verdict on one quest.
#[derive(Debug)]
pub struct QuestResult {
    pub id: String,
    pub source: String,
    pub status: String,
    pub reason_code: String,
    pub reason: String,
    pub objective_kinds: Vec<String>,
}

pub open spec fn kind_of(o: Objective) -> Seq<char> {
    match o.kind {
        Some(k) => k@,
        None => "unspecified"@,
    }
}

pub open spec fn kinds_of(os: Seq<Objective>) -> Seq<Seq<char>> {
    os.map_values(|o: Objective| kind_of(o))
}

/// The kind an objective declares, `unspecified` when it declares none.
pub fn objective_kind(objective: &Objective) -> (k: String)
    ensures
        k@ == kind_of(*objective),
{
    match &objective.kind {
        Some(k) => string_of(chars_of(k.as_str()).as_slice()),
        None => string_of(chars_of("unspecified").as_slice()),
    }
}

fn kinds(objectives: &Vec<Objective>) -> (out: Vec<String>)
    ensures
        text_views(out@) == kinds_of(objectives@),
{
    let mut out: Vec<String> = Vec::new();
    let mut i: usize = 0;
    while i < objectives.len()
        invariant
            i <= objectives@.len(),
            text_views(out@) == kinds_of(objectives@).take(i as int),
        decreases objectives@.len() - i,
    {
        let ghost before = text_views(out@);
        let k = objective_kind(&objectives[i]);
        out.push(k);
        assert(text_views(out@) =~= before.push(k@));
        assert(text_views(out@) =~= kinds_of(objectives@).take(i + 1));
        i = i + 1;
    }
    assert(kinds_of(objectives@).take(objectives@.len() as int) =~= kinds_of(objectives@));
    out
}

/// A quest the server cannot serve, and why.
pub fn unservable(id: String, source: String, reason_code: &str, reason: String, objective_kinds: Vec<String>) -> (r: QuestResult)
    ensures
        r.id == id,
        r.source == source,
        r.status@ == "unservable"@,
        r.reason_code@ == reason_code@,
        r.reason == reason,
        r.objective_kinds == objective_kinds,
{
    QuestResult {
        id,
        source,
        status: string_of(chars_of("unservable").as_slice()),
        reason_code: string_of(chars_of(reason_code).as_slice()),
        reason,
        objective_kinds,
    }
}

/// Why a quest is not servable, for a document that has an id: the first
/// objective of an unsupported kind, or the first that asks for some of
/// nothing.
pub enum Verdict {
    Servable,
    Unsupported(Seq<char>, nat),
    Invalid(Seq<char>, nat, u64),
}

pub open spec fn verdict_from(os: Seq<Objective>, i: nat) -> Verdict
    decreases os.len() - i,
{
    if i >= os.len() {
        Verdict::Servable
    } else if !supported_kind(kind_of(os[i as int])) {
        Verdict::Unsupported(kind_of(os[i as int]), i)
    } else if os[i as int].limit > 0 && os[i as int].targets == 0 {
        Verdict::Invalid(kind_of(os[i as int]), i, os[i as int].limit)
    } else {
        verdict_from(os, i + 1)
    }
}

/// The verdict on a parsed quest document from file `source`: without an id
/// it is malformed; otherwise the first unsupported or empty-handed
/// objective makes it unservable; otherwise it is servable.
pub open spec fn classified(source: Seq<char>, d: QuestDocument, r: QuestResult) -> bool {
    &&& text_views(r.objective_kinds@) == kinds_of(d.objectives@)
    &&& r.source@ == source
    &&& match d.id {
        Some(id) if id@.len() > 0 => {
            &&& r.id@ == id@
            &&& match verdict_from(d.objectives@, 0) {
                Verdict::Servable => r.status@ == "servable"@ && r.reason_code@ == "servable"@ && r.reason@ == "servable"@,
                Verdict::Unsupported(k, i) => r.status@ == "unservable"@ && r.reason_code@ == "unsupported objective kind"@
                    && r.reason@ == "unsupported objective kind: "@ + k + " (objective "@ + decimal(i) + ")"@,
                Verdict::Invalid(k, i, limit) => r.status@ == "unservable"@ && r.reason_code@ == "invalid objective shape"@
                    && r.reason@ == "invalid objective shape: "@ + k + " objective "@ + decimal(i) + " asks for "@
                        + decimal(limit as nat) + " of nothing"@,
            }
        },
        _ => r.id@ == source && r.status@ == "unservable"@ && r.reason_code@ == "malformed quest document"@
            && r.reason@ == "malformed quest document: missing id"@,
    }
}

/// For a quest whose objectives are all of supported kinds, the verdict is
/// decided by shape alone: servable exactly when no objective asks for one
/// or more of something while naming no target.
proof fn lemma_verdict_shape(os: Seq<Objective>, i: nat)
    requires
        forall|k: int| 0 <= k < os.len() ==> supported_kind(#[trigger] kind_of(os[k])),
    ensures
        !(verdict_from(os, i) is Unsupported),
        (verdict_from(os, i) is Servable) <==> forall|k: int| i <= k < os.len() ==> !((#[trigger] os[k]).limit >= 1 && os[k].targets == 0),
    decreases os.len() - i,
{
    if i < os.len() {
        assert(supported_kind(kind_of(os[i as int])));
        lemma_verdict_shape(os, i + 1);
        if os[i as int].limit >= 1 && os[i as int].targets == 0 {
            assert(verdict_from(os, i) is Invalid);
        } else {
            assert forall|k: int| i <= k < os.len() && !(k >= i + 1) implies !((#[trigger] os[k]).limit >= 1 && os[k].targets == 0) by {
                assert(k == i);
            }
        }
    }
}

/// A quest with an id whose objectives all have supported kinds is servable
/// exactly when no objective asks for one or more of something while naming
/// no target; any such objective makes it unservable for an invalid
/// objective shape.
pub proof fn lemma_servable_iff_every_objective_names_a_target(source: Seq<char>, d: QuestDocument, r: QuestResult)
    requires
        classified(source, d, r),
        d.id matches Some(id) && id@.len() > 0,
        forall|k: int| 0 <= k < d.objectives@.len() ==> supported_kind(#[trigger] kind_of(d.objectives@[k])),
    ensures
        r.status@ == "servable"@ <==> forall|k: int| 0 <= k < d.objectives@.len()
            ==> !((#[trigger] d.objectives@[k]).limit >= 1 && d.objectives@[k].targets == 0),
        (exists|k: int| 0 <= k < d.objectives@.len() && (#[trigger] d.objectives@[k]).limit >= 1 && d.objectives@[k].targets == 0)
            ==> r.status@ == "unservable"@ && r.reason_code@ == "invalid objective shape"@,
{
    reveal_strlit("servable");
    reveal_strlit("unservable");
    assert("servable"@ != "unservable"@) by {
        assert("servable"@.len() != "unservable"@.len());
    }
    lemma_verdict_shape(d.objectives@, 0);
}

proof fn lemma_verdict_servable(os: Seq<Objective>, i: nat)
    ensures
        (verdict_from(os, i) is Servable) <==> forall|k: int| i <= k < os.len()
            ==> supported_kind(kind_of(#[trigger] os[k])) && !(os[k].limit >= 1 && os[k].targets == 0),
    decreases os.len() - i,
{
    if i < os.len() {
        lemma_verdict_servable(os, i + 1);
        if supported_kind(kind_of(os[i as int])) && !(os[i as int].limit >= 1 && os[i as int].targets == 0) {
            assert forall|k: int| i <= k < os.len() && !(k >= i + 1) implies
                supported_kind(kind_of(#[trigger] os[k])) && !(os[k].limit >= 1 && os[k].targets == 0) by {
                assert(k == i);
            }
        }
    }
}

proof fn lemma_verdict_first_unsupported(os: Seq<Objective>, i: nat, j: nat)
    requires
        i <= j < os.len(),
        !supported_kind(kind_of(os[j as int])),
        forall|k: int| i <= k < j ==> supported_kind(kind_of(#[trigger] os[k])) && !(os[k].limit >= 1 && os[k].targets == 0),
    ensures
        verdict_from(os, i) == Verdict::Unsupported(kind_of(os[j as int]), j),
    decreases j - i,
{
    if i < j {
        assert(supported_kind(kind_of(os[i as int])) && !(os[i as int].limit >= 1 && os[i as int].targets == 0));
        lemma_verdict_first_unsupported(os, i + 1, j);
    }
}

/// A quest is servable exactly when it has a non-empty id and every one of
/// its objectives is of a kind the server runs and names a target whenever
/// it asks for one or more of something.
pub proof fn lemma_servable_iff_runnable(source: Seq<char>, d: QuestDocument, r: QuestResult)
    requires
        classified(source, d, r),
    ensures
        r.status@ == "servable"@ <==> (d.id matches Some(id) && id@.len() > 0)
            && forall|k: int| 0 <= k < d.objectives@.len()
                ==> supported_kind(kind_of(#[trigger] d.objectives@[k]))
                    && !(d.objectives@[k].limit >= 1 && d.objectives@[k].targets == 0),
{
    reveal_strlit("servable");
    reveal_strlit("unservable");
    assert("servable"@ != "unservable"@) by {
        assert("servable"@.len() != "unservable"@.len());
    }
    lemma_verdict_servable(d.objectives@, 0);
}

/// A quest without an id, or with an empty one, is unservable as a malformed
/// document and is reported under its source path.
pub proof fn lemma_missing_id_is_malformed(source: Seq<char>, d: QuestDocument, r: QuestResult)
    requires
        classified(source, d, r),
        !(d.id matches Some(id) && id@.len() > 0),
    ensures
        r.id@ == source,
        r.status@ == "unservable"@,
        r.reason_code@ == "malformed quest document"@,
{
}

/// In a quest with an id, the first objective of a kind the server does not
/// run, when every objective before it is runnable, makes the quest
/// unservable for an unsupported objective kind, naming that kind and its
/// position.
pub proof fn lemma_first_unsupported_kind_is_reported(source: Seq<char>, d: QuestDocument, r: QuestResult, j: int)
    requires
        classified(source, d, r),
        d.id matches Some(id) && id@.len() > 0,
        0 <= j < d.objectives@.len(),
        !supported_kind(kind_of(d.objectives@[j])),
        forall|k: int| 0 <= k < j ==> supported_kind(kind_of(#[trigger] d.objectives@[k]))
            && !(d.objectives@[k].limit >= 1 && d.objectives@[k].targets == 0),
    ensures
        r.status@ == "unservable"@,
        r.reason_code@ == "unsupported objective kind"@,
        r.reason@ == "unsupported objective kind: "@ + kind_of(d.objectives@[j]) + " (objective "@
            + decimal(j as nat) + ")"@,
{
    lemma_verdict_first_unsupported(d.objectives@, 0, j as nat);
}

/// Classifies a parsed quest document.
pub fn classify_quest(source: &str, document: &QuestDocument) -> (r: QuestResult)
    ensures
        classified(source@, *document, r),
{
    let own_source = string_of(chars_of(source).as_slice());
    let kind_list = kinds(&document.objectives);
    let id = match &document.id {
        Some(id) => {
            if id.as_str().unicode_len() == 0 {
                return unservable(copy_text(&own_source), own_source, "malformed quest document",
                    string_of(chars_of("malformed quest document: missing id").as_slice()), kind_list);
            }
            copy_text(id)
        },
        None => {
            return unservable(copy_text(&own_source), own_source, "malformed quest document",
                string_of(chars_of("malformed quest document: missing id").as_slice()), kind_list);
        },
    };
    let os = &document.objectives;
    let mut i: usize = 0;
    while i < os.len()
        invariant
            i <= os@.len(),
            verdict_from(os@, i as nat) == verdict_from(os@, 0),
            own_source@ == source@,
            text_views(kind_list@) == kinds_of(os@),
            document.id matches Some(x) && x@.len() > 0 && x@ == id@,
            os@ == document.objectives@,
        decreases os@.len() - i,
    {
        let kind = objective_kind(&os[i]);
        let k = chars_of(kind.as_str());
        if !(eq_str(k.as_slice(), "quest-count-kill") || eq_str(k.as_slice(), "quest-count-item")) {
            let mut reason: Vec<char> = Vec::new();
            push_str(&mut reason, "unsupported objective kind: ");
            push_chars(&mut reason, k.as_slice());
            push_str(&mut reason, " (objective ");
            push_decimal(&mut reason, i as u64);
            push_str(&mut reason, ")");
            return unservable(id, own_source, "unsupported objective kind", string_of(reason.as_slice()), kind_list);
        }
        if os[i].limit > 0 && os[i].targets == 0 {
            let mut reason: Vec<char> = Vec::new();
            push_str(&mut reason, "invalid objective shape: ");
            push_chars(&mut reason, k.as_slice());
            push_str(&mut reason, " objective ");
            push_decimal(&mut reason, i as u64);
            push_str(&mut reason, " asks for ");
            push_decimal(&mut reason, os[i].limit);
            push_str(&mut reason, " of nothing");
            return unservable(id, own_source, "invalid objective shape", string_of(reason.as_slice()), kind_list);
        }
        i = i + 1;
    }
    QuestResult {
        id,
        source: own_source,
        status: string_of(chars_of("servable").as_slice()),
        reason_code: string_of(chars_of("servable").as_slice()),
        reason: string_of(chars_of("servable").as_slice()),
        objective_kinds: kind_list,
    }
}

fn copy_text(s: &String) -> (out: String)
    ensures
        out@ == s@,
{
    string_of(chars_of(s.as_str()).as_slice())
}

/// A quest file that could not be read or parsed: unservable, named by its
/// file, with the reason and the error in words.
pub fn unreadable(source: &str, reason_code: &str, error: &str) -> (r: QuestResult)
    ensures
        r.id@ == source@,
        r.source@ == source@,
        r.status@ == "unservable"@,
        r.reason_code@ == reason_code@,
        r.reason@ == reason_code@ + ": "@ + error@,
        r.objective_kinds@.len() == 0,
{
    let mut reason: Vec<char> = Vec::new();
    push_str(&mut reason, reason_code);
    push_str(&mut reason, ": ");
    push_str(&mut reason, error);
    let s = string_of(chars_of(source).as_slice());
    unservable(copy_text(&s), s, reason_code, string_of(reason.as_slice()), Vec::new())
}

// ----- the summary ------------------------------------------------------------------

pub struct ResultView {
    pub id: Seq<char>,
    pub source: Seq<char>,
    pub status: Seq<char>,
    pub reason_code: Seq<char>,
    pub reason: Seq<char>,
    pub kinds: Seq<Seq<char>>,
}

pub open spec fn result_view(r: QuestResult) -> ResultView {
    ResultView {
        id: r.id@,
        source: r.source@,
        status: r.status@,
        reason_code: r.reason_code@,
        reason: r.reason@,
        kinds: text_views(r.objective_kinds@),
    }
}

pub open spec fn result_views(v: Seq<QuestResult>) -> Seq<ResultView> {
    v.map_values(|r: QuestResult| result_view(r))
}

/// Quests order by id, then by source file.
pub open spec fn result_le(a: ResultView, b: ResultView) -> bool {
    (lex_le(a.id, b.id) && a.id != b.id) || (a.id == b.id && lex_le(a.source, b.source))
}

pub open spec fn insert_result(s: Seq<ResultView>, x: ResultView) -> Seq<ResultView>
    decreases s.len(),
{
    if s.len() == 0 {
        seq![x]
    } else if result_le(s.last(), x) {
        s.push(x)
    } else {
        insert_result(s.drop_last(), x).push(s.last())
    }
}

/// The quests in (id, source) order, equal keys in input order.
pub open spec fn sorted_results(s: Seq<ResultView>) -> Seq<ResultView>
    decreases s.len(),
{
    if s.len() == 0 { s } else { insert_result(sorted_results(s.drop_last()), s.last()) }
}

proof fn lemma_result_le_total(a: ResultView, b: ResultView)
    ensures
        result_le(a, b) || result_le(b, a),
{
    lemma_lex_total(a.id, b.id);
    lemma_lex_total(a.source, b.source);
}

proof fn lemma_result_le_transitive(a: ResultView, b: ResultView, c: ResultView)
    requires
        result_le(a, b),
        result_le(b, c),
    ensures
        result_le(a, c),
{
    if a.id == b.id && b.id == c.id {
        lemma_lex_transitive(a.source, b.source, c.source);
    } else {
        lemma_lex_total(a.id, a.id);
        lemma_lex_total(b.id, b.id);
        lemma_lex_transitive(a.id, b.id, c.id);
        if a.id == c.id {
            lemma_lex_antisym(a.id, b.id);
        }
    }
}

pub open spec fn results_ascending(s: Seq<ResultView>) -> bool {
    forall|a: int, b: int| 0 <= a < b < s.len() ==> result_le(#[trigger] s[a], #[trigger] s[b])
}

proof fn lemma_insert_result(s: Seq<ResultView>, x: ResultView)
    ensures
        insert_result(s, x).len() == s.len() + 1,
        forall|i: int| 0 <= i < insert_result(s, x).len()
            ==> (#[trigger] insert_result(s, x)[i]) == x || s.contains(insert_result(s, x)[i]),
        insert_result(s, x).contains(x),
        forall|j: int| 0 <= j < s.len() ==> insert_result(s, x).contains(#[trigger] s[j]),
        results_ascending(s) ==> results_ascending(insert_result(s, x)),
    decreases s.len(),
{
    let r = insert_result(s, x);
    if s.len() == 0 {
        assert(r[0] == x);
    } else if result_le(s.last(), x) {
        assert(r == s.push(x));
        assert(r[s.len() as int] == x);
        assert forall|i: int| 0 <= i < r.len() implies (#[trigger] r[i]) == x || s.contains(r[i]) by {
            if i < s.len() {
                assert(r[i] == s[i]);
            }
        }
        assert forall|j: int| 0 <= j < s.len() implies r.contains(#[trigger] s[j]) by {
            assert(r[j] == s[j]);
        }
        if results_ascending(s) {
            assert forall|a: int, b: int| 0 <= a < b < r.len() implies result_le(#[trigger] r[a], #[trigger] r[b]) by {
                if b < s.len() {
                    assert(r[a] == s[a] && r[b] == s[b]);
                } else {
                    assert(r[a] == s[a]);
                    if a < s.len() - 1 {
                        assert(result_le(s[a], s[s.len() - 1]));
                        lemma_result_le_transitive(s[a], s.last(), x);
                    }
                }
            }
        }
    } else {
        let t = s.drop_last();
        let q = insert_result(t, x);
        lemma_insert_result(t, x);
        assert(r == q.push(s.last()));
        assert(r[q.len() as int] == s.last());
        assert forall|i: int| 0 <= i < r.len() implies (#[trigger] r[i]) == x || s.contains(r[i]) by {
            if i < q.len() {
                assert(r[i] == q[i]);
                if q[i] != x {
                    assert(t.contains(q[i]));
                    let j = choose|j: int| 0 <= j < t.len() && t[j] == q[i];
                    assert(s[j] == t[j]);
                }
            } else {
                assert(s[s.len() - 1] == s.last());
            }
        }
        assert(r.contains(x)) by {
            let k = choose|k: int| 0 <= k < q.len() && q[k] == x;
            assert(r[k] == q[k]);
        }
        assert forall|j: int| 0 <= j < s.len() implies r.contains(#[trigger] s[j]) by {
            if j < s.len() - 1 {
                assert(t[j] == s[j]);
                assert(q.contains(t[j]));
                let k = choose|k: int| 0 <= k < q.len() && q[k] == t[j];
                assert(r[k] == q[k]);
            }
        }
        if results_ascending(s) {
            assert(results_ascending(t)) by {
                assert forall|a: int, b: int| 0 <= a < b < t.len() implies result_le(#[trigger] t[a], #[trigger] t[b]) by {
                    assert(t[a] == s[a] && t[b] == s[b]);
                }
            }
            lemma_result_le_total(s.last(), x);
            assert forall|a: int, b: int| 0 <= a < b < r.len() implies result_le(#[trigger] r[a], #[trigger] r[b]) by {
                if b < q.len() {
                    assert(r[a] == q[a] && r[b] == q[b]);
                } else {
                    assert(r[a] == q[a]);
                    if q[a] != x {
                        assert(t.contains(q[a]));
                        let j = choose|j: int| 0 <= j < t.len() && t[j] == q[a];
                        assert(s[j] == t[j]);
                        assert(result_le(s[j], s[s.len() - 1]));
                    }
                }
            }
        }
    }
}

proof fn lemma_sorted_results(s: Seq<ResultView>)
    ensures
        results_ascending(sorted_results(s)),
        sorted_results(s).len() == s.len(),
        forall|i: int| 0 <= i < sorted_results(s).len() ==> s.contains(#[trigger] sorted_results(s)[i]),
        forall|j: int| 0 <= j < s.len() ==> sorted_results(s).contains(#[trigger] s[j]),
    decreases s.len(),
{
    if s.len() > 0 {
        let t = s.drop_last();
        lemma_sorted_results(t);
        let q = sorted_results(t);
        lemma_insert_result(q, s.last());
        let r = sorted_results(s);
        assert(r == insert_result(q, s.last()));
        assert forall|i: int| 0 <= i < r.len() implies s.contains(#[trigger] r[i]) by {
            if r[i] == s.last() {
                assert(s[s.len() - 1] == s.last());
            } else {
                assert(q.contains(r[i]));
                let k = choose|k: int| 0 <= k < q.len() && q[k] == r[i];
                assert(t.contains(q[k]));
                let j = choose|j: int| 0 <= j < t.len() && t[j] == q[k];
                assert(s[j] == t[j]);
            }
        }
        assert forall|j: int| 0 <= j < s.len() implies r.contains(#[trigger] s[j]) by {
            if j < s.len() - 1 {
                assert(t[j] == s[j]);
                assert(q.contains(t[j]));
                let k = choose|k: int| 0 <= k < q.len() && q[k] == t[j];
                assert(r.contains(q[k]));
            } else {
                assert(s[j] == s.last());
            }
        }
    }
}

/// The census lists as many quests as it was given, every one of them and
/// nothing else, ordered by id and, for one id, by source file.
pub proof fn lemma_census_order(rs: Seq<ResultView>)
    ensures
        sorted_results(rs).len() == rs.len(),
        forall|a: int, b: int| 0 <= a < b < sorted_results(rs).len() ==> {
            let x = #[trigger] sorted_results(rs)[a];
            let y = #[trigger] sorted_results(rs)[b];
            &&& lex_le(x.id, y.id)
            &&& x.id == y.id ==> lex_le(x.source, y.source)
        },
        forall|j: int| 0 <= j < rs.len() ==> sorted_results(rs).contains(#[trigger] rs[j]),
        forall|i: int| 0 <= i < sorted_results(rs).len() ==> rs.contains(#[trigger] sorted_results(rs)[i]),
{
    lemma_sorted_results(rs);
    let r = sorted_results(rs);
    assert forall|a: int, b: int| 0 <= a < b < r.len() implies {
        let x = #[trigger] r[a];
        let y = #[trigger] r[b];
        &&& lex_le(x.id, y.id)
        &&& x.id == y.id ==> lex_le(x.source, y.source)
    } by {
        assert(result_le(r[a], r[b]));
        if r[a].id == r[b].id {
            lemma_lex_total(r[a].id, r[b].id);
        }
    }
}

fn result_le_exec(a: &QuestResult, b: &QuestResult) -> (r: bool)
    ensures
        r == result_le(result_view(*a), result_view(*b)),
{
    let ai = chars_of(a.id.as_str());
    let bi = chars_of(b.id.as_str());
    if seq_eq(ai.as_slice(), bi.as_slice()) {
        lex_le_exec(chars_of(a.source.as_str()).as_slice(), chars_of(b.source.as_str()).as_slice())
    } else {
        lex_le_exec(ai.as_slice(), bi.as_slice())
    }
}

fn insert_sorted(out: &mut Vec<QuestResult>, x: QuestResult)
    ensures
        result_views(final(out)@) == insert_result(result_views(old(out)@), result_view(x)),
{
    let ghost s0 = result_views(out@);
    let ghost xv = result_view(x);
    let mut j = out.len();
    assert(s0.take(j as int) =~= s0);
    while j > 0 && !result_le_exec(&out[j - 1], &x)
        invariant
            j <= out@.len(),
            s0 == result_views(out@),
            xv == result_view(x),
            insert_result(s0, xv) == insert_result(s0.take(j as int), xv) + s0.skip(j as int),
        decreases j,
    {
        assert(s0[j - 1] == result_view(out@[j - 1]));
        assert(s0.take(j as int).last() == s0[j - 1]);
        assert(s0.take(j as int).drop_last() =~= s0.take(j - 1));
        assert(s0.skip(j - 1) =~= seq![s0[j - 1]] + s0.skip(j as int));
        assert(insert_result(s0.take(j - 1), xv).push(s0[j - 1]) + s0.skip(j as int)
            =~= insert_result(s0.take(j - 1), xv) + s0.skip(j - 1));
        j = j - 1;
    }
    proof {
        if j > 0 {
            assert(s0[j - 1] == result_view(out@[j - 1]));
            assert(s0.take(j as int).last() == s0[j - 1]);
            assert(insert_result(s0.take(j as int), xv) == s0.take(j as int).push(xv));
        } else {
            assert(insert_result(s0.take(0), xv) == seq![xv]);
        }
    }
    out.insert(j, x);
    assert(result_views(out@) =~= s0.take(j as int).push(xv) + s0.skip(j as int));
}

/// The quests in (id, source) order, stably.
pub fn sort_results(quests: Vec<QuestResult>) -> (out: Vec<QuestResult>)
    ensures
        result_views(out@) == sorted_results(result_views(quests@)),
{
    let ghost qv = result_views(quests@);
    let mut rest = quests;
    let mut out: Vec<QuestResult> = Vec::new();
    let ghost mut i: int = 0;
    assert(qv.take(0) =~= Seq::<ResultView>::empty());
    assert(result_views(out@) =~= Seq::<ResultView>::empty());
    assert(qv.skip(0) =~= qv);
    while rest.len() > 0
        invariant
            0 <= i <= qv.len(),
            result_views(rest@) == qv.skip(i),
            result_views(out@) == sorted_results(qv.take(i)),
        decreases rest@.len(),
    {
        let ghost before = result_views(rest@);
        let x = rest.remove(0);
        assert(result_views(rest@) =~= before.drop_first());
        assert(qv.skip(i)[0] == result_view(x));
        assert(qv.take(i + 1).drop_last() =~= qv.take(i));
        assert(qv.take(i + 1).last() == qv[i]);
        insert_sorted(&mut out, x);
        proof {
            assert(qv.skip(i).drop_first() =~= qv.skip(i + 1));
            i = i + 1;
        }
    }
    assert(qv.take(i) =~= qv);
    out
}

pub open spec fn all_kinds(rs: Seq<ResultView>) -> Seq<Seq<char>>
    decreases rs.len(),
{
    if rs.len() == 0 { Seq::empty() } else { all_kinds(rs.drop_last()) + rs.last().kinds }
}

pub open spec fn occurrences(s: Seq<Seq<char>>, k: Seq<char>) -> nat
    decreases s.len(),
{
    if s.len() == 0 { 0 } else { occurrences(s.drop_last(), k) + if s.last() == k { 1nat } else { 0nat } }
}

/// Servable quests group as `servable`; the others by their reason code.
pub open spec fn reason_group(r: ResultView) -> Seq<char> {
    if r.status == "servable"@ { "servable"@ } else { r.reason_code }
}

pub open spec fn groups(rs: Seq<ResultView>) -> Seq<Seq<char>> {
    rs.map_values(|r: ResultView| reason_group(r))
}

pub open spec fn servable_count(rs: Seq<ResultView>) -> nat
    decreases rs.len(),
{
    if rs.len() == 0 { 0 } else { servable_count(rs.drop_last()) + if rs.last().status == "servable"@ { 1nat } else { 0nat } }
}

#[derive(Debug)]
pub struct Summary {
    pub total_quests: usize,
    pub servable: usize,
    pub unservable: usize,
    pub objectives_extracted: usize,
    pub objective_kinds: Vec<(String, usize)>,
    pub reasons: Vec<(String, usize)>,
}

/// The summary of a census over `rs`: totals, servable and unservable
/// counts, and per-kind and per-reason counts.
pub open spec fn summarizes(s: Summary, rs: Seq<ResultView>) -> bool {
    &&& s.total_quests == rs.len()
    &&& s.servable == servable_count(rs)
    &&& s.unservable == rs.len() - servable_count(rs)
    &&& s.objectives_extracted == all_kinds(rs).len()
    &&& tally_wf(tally_views(s.objective_kinds@))
    &&& forall|k: Seq<char>| #[trigger] count_in(tally_views(s.objective_kinds@), k) == occurrences(all_kinds(rs), k)
    &&& tally_wf(tally_views(s.reasons@))
    &&& forall|k: Seq<char>| #[trigger] count_in(tally_views(s.reasons@), k) == occurrences(groups(rs), k)
}

proof fn lemma_occurrences_bound(s: Seq<Seq<char>>, k: Seq<char>)
    ensures
        occurrences(s, k) <= s.len(),
    decreases s.len(),
{
    if s.len() > 0 {
        lemma_occurrences_bound(s.drop_last(), k);
    }
}

proof fn lemma_occurrences_concat(a: Seq<Seq<char>>, b: Seq<Seq<char>>, k: Seq<char>)
    ensures
        occurrences(a + b, k) == occurrences(a, k) + occurrences(b, k),
    decreases b.len(),
{
    if b.len() == 0 {
        assert(a + b =~= a);
    } else {
        lemma_occurrences_concat(a, b.drop_last(), k);
        assert((a + b).drop_last() =~= a + b.drop_last());
    }
}

proof fn lemma_servable_bound(rs: Seq<ResultView>)
    ensures
        servable_count(rs) <= rs.len(),
    decreases rs.len(),
{
    if rs.len() > 0 {
        lemma_servable_bound(rs.drop_last());
    }
}

fn empty_tally() -> (t: Vec<(String, usize)>)
    ensures
        t@.len() == 0,
        tally_wf(tally_views(t@)),
        forall|k: Seq<char>| #[trigger] count_in(tally_views(t@), k) == 0,
{
    let t: Vec<(String, usize)> = Vec::new();
    assert(tally_views(t@) =~= Seq::empty());
    t
}

/// Orders the quests and summarises them.
pub fn summarize(quests: Vec<QuestResult>) -> (r: (Vec<QuestResult>, Summary))
    requires
        all_kinds(result_views(quests@)).len() < usize::MAX,
    ensures
        result_views(r.0@) == sorted_results(result_views(quests@)),
        summarizes(r.1, result_views(r.0@)),
{
    let ghost n_kinds = all_kinds(result_views(quests@)).len();
    let sorted = sort_results(quests);
    let ghost rv = result_views(sorted@);
    proof { lemma_sorted_kinds_len(result_views(quests@)); }
    let mut kinds_tally = empty_tally();
    let mut reasons_tally = empty_tally();
    let mut servable: usize = 0;
    let mut extracted: usize = 0;
    let mut i: usize = 0;
    assert(rv.take(0) =~= Seq::<ResultView>::empty());
    assert(groups(rv.take(0)) =~= Seq::<Seq<char>>::empty());
    while i < sorted.len()
        invariant
            i <= sorted@.len(),
            rv == result_views(sorted@),
            all_kinds(rv).len() < usize::MAX,
            tally_wf(tally_views(kinds_tally@)),
            tally_wf(tally_views(reasons_tally@)),
            forall|k: Seq<char>| #[trigger] count_in(tally_views(kinds_tally@), k) == occurrences(all_kinds(rv.take(i as int)), k),
            forall|k: Seq<char>| #[trigger] count_in(tally_views(reasons_tally@), k) == occurrences(groups(rv.take(i as int)), k),
            servable == servable_count(rv.take(i as int)),
            extracted == all_kinds(rv.take(i as int)).len(),
            all_kinds(rv.take(i as int)).len() <= all_kinds(rv).len(),
        decreases sorted@.len() - i,
    {
        assert(rv.take(i + 1).drop_last() =~= rv.take(i as int));
        assert(rv.take(i + 1).last() == rv[i as int]);
        assert(rv[i as int] == result_view(sorted@[i as int]));
        let q = &sorted[i];
        let ghost prefix = all_kinds(rv.take(i as int));
        proof { lemma_kinds_prefix(rv, i as int); }
        let mut j: usize = 0;
        while j < q.objective_kinds.len()
            invariant
                j <= q.objective_kinds@.len(),
                q == &sorted@[i as int],
                rv == result_views(sorted@),
                i < rv.len(),
                prefix == all_kinds(rv.take(i as int)),
                prefix.len() + q.objective_kinds@.len() <= all_kinds(rv).len(),
                all_kinds(rv).len() < usize::MAX,
                tally_wf(tally_views(kinds_tally@)),
                forall|k: Seq<char>| #[trigger] count_in(tally_views(kinds_tally@), k)
                    == occurrences(prefix + text_views(q.objective_kinds@).take(j as int), k),
                extracted == prefix.len() + j,
            decreases q.objective_kinds@.len() - j,
        {
            let k = chars_of(q.objective_kinds[j].as_str());
            proof {
                lemma_occurrences_bound(prefix + text_views(q.objective_kinds@).take(j as int), k@);
            }
            tally_add(&mut kinds_tally, k.as_slice(), usize::MAX);
            extracted = extracted + 1;
            proof {
                let a = prefix + text_views(q.objective_kinds@).take(j as int);
                assert(prefix + text_views(q.objective_kinds@).take(j + 1) =~= a.push(k@));
                assert forall|k2: Seq<char>| #[trigger] count_in(tally_views(kinds_tally@), k2)
                    == occurrences(prefix + text_views(q.objective_kinds@).take(j + 1), k2) by {
                    assert(a.push(k@).drop_last() =~= a);
                }
            }
            j = j + 1;
        }
        assert(text_views(q.objective_kinds@).take(q.objective_kinds@.len() as int) =~= text_views(q.objective_kinds@));
        assert(all_kinds(rv.take(i + 1)) == prefix + rv[i as int].kinds);
        let group = if eq_str(chars_of(q.status.as_str()).as_slice(), "servable") {
            chars_of("servable")
        } else {
            chars_of(q.reason_code.as_str())
        };
        assert(group@ == reason_group(rv[i as int]));
        proof {
            lemma_occurrences_bound(groups(rv.take(i as int)), group@);
            assert(groups(rv.take(i as int)).len() == i);
        }
        tally_add(&mut reasons_tally, group.as_slice(), usize::MAX);
        proof {
            assert(groups(rv.take(i + 1)) =~= groups(rv.take(i as int)).push(group@));
            assert forall|k2: Seq<char>| #[trigger] count_in(tally_views(reasons_tally@), k2)
                == occurrences(groups(rv.take(i + 1)), k2) by {
                assert(groups(rv.take(i + 1)).drop_last() =~= groups(rv.take(i as int)));
            }
            lemma_servable_bound(rv.take(i as int));
        }
        if eq_str(chars_of(q.status.as_str()).as_slice(), "servable") {
            servable = servable + 1;
        }
        i = i + 1;
    }
    assert(rv.take(sorted@.len() as int) =~= rv);
    proof { lemma_servable_bound(rv); }
    let total = sorted.len();
    let summary = Summary {
        total_quests: total,
        servable,
        unservable: total - servable,
        objectives_extracted: extracted,
        objective_kinds: kinds_tally,
        reasons: reasons_tally,
    };
    (sorted, summary)
}

proof fn lemma_kinds_prefix(rv: Seq<ResultView>, i: int)
    requires
        0 <= i < rv.len(),
    ensures
        all_kinds(rv.take(i)).len() + rv[i].kinds.len() <= all_kinds(rv).len(),
    decreases rv.len(),
{
    if i < rv.len() - 1 {
        assert(rv.drop_last().take(i) =~= rv.take(i));
        assert(rv.drop_last()[i] == rv[i]);
        lemma_kinds_prefix(rv.drop_last(), i);
    } else {
        assert(rv.drop_last() =~= rv.take(i));
    }
}

proof fn lemma_sorted_kinds_len(rs: Seq<ResultView>)
    ensures
        all_kinds(sorted_results(rs)).len() == all_kinds(rs).len(),
    decreases rs.len(),
{
    if rs.len() > 0 {
        lemma_sorted_kinds_len(rs.drop_last());
        lemma_insert_kinds_len(sorted_results(rs.drop_last()), rs.last());
    }
}

proof fn lemma_insert_kinds_len(s: Seq<ResultView>, x: ResultView)
    ensures
        all_kinds(insert_result(s, x)).len() == all_kinds(s).len() + x.kinds.len(),
    decreases s.len(),
{
    if s.len() > 0 && !result_le(s.last(), x) {
        lemma_insert_kinds_len(s.drop_last(), x);
        let t = insert_result(s, x);
        assert(t == insert_result(s.drop_last(), x).push(s.last()));
        assert(t.drop_last() =~= insert_result(s.drop_last(), x));
        assert(t.last() == s.last());
        assert(all_kinds(t) == all_kinds(t.drop_last()) + t.last().kinds);
        assert(all_kinds(s) == all_kinds(s.drop_last()) + s.last().kinds);
    } else if s.len() > 0 {
        assert(s.push(x).drop_last() =~= s);
        assert(all_kinds(s.push(x)) == all_kinds(s) + x.kinds);
    } else {
        assert(seq![x].drop_last() =~= Seq::<ResultView>::empty());
        assert(all_kinds(seq![x]) == all_kinds(Seq::<ResultView>::empty()) + x.kinds);
    }
}

// ----- baseline and rendering --------------------------------------------------------

/// A regression the committed baseline refuses.
#[derive(Debug, Clone, PartialEq, Eq)]
pub enum BaselineError {
    Servable { found: usize, minimum: usize },
    Total { found: usize, minimum: usize },
}

pub open spec fn baseline_text(e: BaselineError) -> Seq<char> {
    match e {
        BaselineError::Servable { found, minimum } => "servable quest count regressed below baseline: "@
            + decimal(found as nat) + " < "@ + decimal(minimum as nat),
        BaselineError::Total { found, minimum } => "total quest count regressed below baseline: "@
            + decimal(found as nat) + " < "@ + decimal(minimum as nat),
    }
}

impl BaselineError {
    pub fn message(&self) -> (r: String)
        ensures
            r@ == baseline_text(*self),
    {
        let mut out: Vec<char> = Vec::new();
        match self {
            BaselineError::Servable { found, minimum } => {
                push_str(&mut out, "servable quest count regressed below baseline: ");
                push_decimal(&mut out, *found as u64);
                push_str(&mut out, " < ");
                push_decimal(&mut out, *minimum as u64);
            },
            BaselineError::Total { found, minimum } => {
                push_str(&mut out, "total quest count regressed below baseline: ");
                push_decimal(&mut out, *found as u64);
                push_str(&mut out, " < ");
                push_decimal(&mut out, *minimum as u64);
            },
        }
        assert(out@ =~= baseline_text(*self));
        string_of(out.as_slice())
    }
}

/// Refuses a census whose servable or total count fell below the baseline;
/// the servable count is checked first.
pub fn enforce_baseline(summary: &Summary, minimum_servable: usize, minimum_total: usize) -> (r: Result<(), BaselineError>)
    ensures
        summary.servable < minimum_servable ==> r == Err::<(), BaselineError>(BaselineError::Servable { found: summary.servable, minimum: minimum_servable }),
        summary.servable >= minimum_servable && summary.total_quests < minimum_total
            ==> r == Err::<(), BaselineError>(BaselineError::Total { found: summary.total_quests, minimum: minimum_total }),
        summary.servable >= minimum_servable && summary.total_quests >= minimum_total ==> r is Ok,
{
    if summary.servable < minimum_servable {
        return Err(BaselineError::Servable { found: summary.servable, minimum: minimum_servable });
    }
    if summary.total_quests < minimum_total {
        return Err(BaselineError::Total { found: summary.total_quests, minimum: minimum_total });
    }
    Ok(())
}

pub open spec fn count_text(c: Option<u64>) -> Seq<char> {
    match c {
        Some(n) => decimal(n as nat),
        None => "not measured"@,
    }
}

/// A tier count as the table prints it.
pub fn display_count(count: Option<u64>) -> (r: String)
    ensures
        r@ == count_text(count),
{
    match count {
        Some(n) => string_of(crate::text::decimal_vec(n).as_slice()),
        None => string_of(chars_of("not measured").as_slice()),
    }
}

/// Per-tier script node counts, when measured.
#[derive(Debug, Default, Clone, Copy)]
pub struct ScriptNodeCounts {
    pub implemented: Option<u64>,
    pub inert_and_counted: Option<u64>,
    pub refused: Option<u64>,
}

/// `s` padded with spaces to `width` characters.
pub open spec fn padded(s: Seq<char>, width: nat) -> Seq<char> {
    if s.len() >= width { s } else { s + Seq::new((width - s.len()) as nat, |i: int| ' ') }
}

fn pad(s: &[char], width: usize) -> (out: Vec<char>)
    ensures
        out@ == padded(s@, width as nat),
{
    let mut out = crate::text::copy_chars(s);
    let mut n = s.len();
    while n < width
        invariant
            s@.len() <= n <= width || (n == s@.len() && n >= width),
            out@ == s@ + Seq::new((n - s@.len()) as nat, |i: int| ' '),
        decreases width - n,
    {
        out.push(' ');
        assert(out@ =~= s@ + Seq::new((n + 1 - s@.len()) as nat, |i: int| ' '));
        n = n + 1;
    }
    assert(s@.len() >= width ==> out@ =~= s@);
    out
}

pub open spec fn max_id_bytes(rs: Seq<ResultView>) -> nat
    decreases rs.len(),
{
    if rs.len() == 0 {
        5
    } else {
        let rest = max_id_bytes(rs.drop_last());
        let here = encode_utf8(rs.last().id).len();
        if here > rest { here } else { rest }
    }
}

pub open spec fn kind_entries_text(t: Seq<(Seq<char>, nat)>) -> Seq<Seq<char>> {
    t.map_values(|e: (Seq<char>, nat)| e.0 + "="@ + decimal(e.1))
}

/// The table the command prints: a header, one line per quest, a blank
/// line, and the totals.
pub open spec fn table_lines(rs: Seq<ResultView>, s: Summary, nodes: ScriptNodeCounts) -> Seq<Seq<char>> {
    let w = max_id_bytes(rs);
    seq![padded("QUEST"@, w) + "  "@ + padded("STATUS"@, 10) + "  REASON"@,
        Seq::new(w, |i: int| '-') + "  "@ + Seq::new(10, |i: int| '-') + "  "@ + "------"@]
        + rs.map_values(|r: ResultView| padded(r.id, w) + "  "@ + padded(r.status, 10) + "  "@ + r.reason)
        + seq![Seq::<char>::empty(),
            decimal(s.servable as nat) + " of "@ + decimal(s.total_quests as nat) + " servable, "@
                + decimal(s.unservable as nat) + " unservable"@,
            decimal(s.objectives_extracted as nat) + " extracted objectives ("@
                + join(kind_entries_text(tally_views(s.objective_kinds@)), ", "@) + ")"@,
            "script nodes: implemented="@ + count_text(nodes.implemented) + ", inert-and-counted="@
                + count_text(nodes.inert_and_counted) + ", refused="@ + count_text(nodes.refused)]
}

fn dashes(n: usize) -> (out: Vec<char>)
    ensures
        out@ == Seq::new(n as nat, |i: int| '-'),
{
    let mut out: Vec<char> = Vec::new();
    let mut i: usize = 0;
    while i < n
        invariant
            i <= n,
            out@ == Seq::new(i as nat, |k: int| '-'),
        decreases n - i,
    {
        out.push('-');
        assert(out@ =~= Seq::new((i + 1) as nat, |k: int| '-'));
        i = i + 1;
    }
    out
}

/// The lines of the census table.
pub fn render_table(quests: &Vec<QuestResult>, summary: &Summary, nodes: ScriptNodeCounts) -> (lines: Vec<String>)
    ensures
        text_views(lines@) == table_lines(result_views(quests@), *summary, nodes),
{
    let ghost rv = result_views(quests@);
    let mut width: usize = 5;
    let mut i: usize = 0;
    assert(rv.take(0) =~= Seq::<ResultView>::empty());
    while i < quests.len()
        invariant
            i <= quests@.len(),
            rv == result_views(quests@),
            width as nat == max_id_bytes(rv.take(i as int)),
        decreases quests@.len() - i,
    {
        assert(rv.take(i + 1).drop_last() =~= rv.take(i as int));
        assert(rv.take(i + 1).last() == rv[i as int]);
        let n = quests[i].id.as_str().as_bytes_vec().len();
        if n > width {
            width = n;
        }
        i = i + 1;
    }
    assert(rv.take(quests@.len() as int) =~= rv);
    let mut lines: Vec<Vec<char>> = Vec::new();
    let mut head = pad(chars_of("QUEST").as_slice(), width);
    push_str(&mut head, "  ");
    push_chars(&mut head, pad(chars_of("STATUS").as_slice(), 10).as_slice());
    push_str(&mut head, "  REASON");
    lines.push(head);
    let mut rule = dashes(width);
    push_str(&mut rule, "  ");
    push_chars(&mut rule, dashes(10).as_slice());
    push_str(&mut rule, "  ");
    push_str(&mut rule, "------");
    lines.push(rule);
    let ghost top = views_of(lines@);
    let mut k: usize = 0;
    while k < quests.len()
        invariant
            k <= quests@.len(),
            rv == result_views(quests@),
            width as nat == max_id_bytes(rv),
            lines@.len() == 2 + k,
            views_of(lines@) == top + rv.take(k as int).map_values(|r: ResultView| padded(r.id, width as nat) + "  "@ + padded(r.status, 10) + "  "@ + r.reason),
        decreases quests@.len() - k,
    {
        let q = &quests[k];
        let mut line = pad(chars_of(q.id.as_str()).as_slice(), width);
        push_str(&mut line, "  ");
        push_chars(&mut line, pad(chars_of(q.status.as_str()).as_slice(), 10).as_slice());
        push_str(&mut line, "  ");
        push_str(&mut line, q.reason.as_str());
        let ghost before = views_of(lines@);
        lines.push(line);
        assert(rv[k as int] == result_view(quests@[k as int]));
        assert(views_of(lines@) =~= before.push(line@));
        assert(rv.take(k + 1) =~= rv.take(k as int).push(rv[k as int]));
        assert(views_of(lines@) =~= top + rv.take(k + 1).map_values(|r: ResultView| padded(r.id, width as nat) + "  "@ + padded(r.status, 10) + "  "@ + r.reason));
        k = k + 1;
    }
    assert(rv.take(quests@.len() as int) =~= rv);
    let ghost w = max_id_bytes(rv);
    let ghost mapped = rv.map_values(|r: ResultView| padded(r.id, w) + "  "@ + padded(r.status, 10) + "  "@ + r.reason);
    assert(rv.map_values(|r: ResultView| padded(r.id, width as nat) + "  "@ + padded(r.status, 10) + "  "@ + r.reason) =~= mapped);
    assert(top =~= seq![padded("QUEST"@, w) + "  "@ + padded("STATUS"@, 10) + "  REASON"@,
        Seq::new(w, |i: int| '-') + "  "@ + Seq::new(10, |i: int| '-') + "  "@ + "------"@]);
    let ghost body = views_of(lines@);
    assert(body == top + mapped);
    lines.push(Vec::new());
    let mut totals: Vec<char> = Vec::new();
    push_decimal(&mut totals, summary.servable as u64);
    push_str(&mut totals, " of ");
    push_decimal(&mut totals, summary.total_quests as u64);
    push_str(&mut totals, " servable, ");
    push_decimal(&mut totals, summary.unservable as u64);
    push_str(&mut totals, " unservable");
    let ghost totals_line = totals@;
    lines.push(totals);
    let mut entries: Vec<Vec<char>> = Vec::new();
    let mut e: usize = 0;
    while e < summary.objective_kinds.len()
        invariant
            e <= summary.objective_kinds@.len(),
            views_of(entries@) == kind_entries_text(tally_views(summary.objective_kinds@)).take(e as int),
        decreases summary.objective_kinds@.len() - e,
    {
        let mut x: Vec<char> = Vec::new();
        push_str(&mut x, summary.objective_kinds[e].0.as_str());
        push_str(&mut x, "=");
        push_decimal(&mut x, summary.objective_kinds[e].1 as u64);
        let ghost before = views_of(entries@);
        entries.push(x);
        assert(views_of(entries@) =~= before.push(x@));
        assert(views_of(entries@) =~= kind_entries_text(tally_views(summary.objective_kinds@)).take(e + 1));
        e = e + 1;
    }
    assert(kind_entries_text(tally_views(summary.objective_kinds@)).take(summary.objective_kinds@.len() as int)
        =~= kind_entries_text(tally_views(summary.objective_kinds@)));
    let mut extracted: Vec<char> = Vec::new();
    push_decimal(&mut extracted, summary.objectives_extracted as u64);
    push_str(&mut extracted, " extracted objectives (");
    let sep = chars_of(", ");
    push_chars(&mut extracted, join_vec(&entries, sep.as_slice()).as_slice());
    push_str(&mut extracted, ")");
    let ghost extracted_line = extracted@;
    lines.push(extracted);
    let mut script: Vec<char> = Vec::new();
    push_str(&mut script, "script nodes: implemented=");
    push_str(&mut script, display_count(nodes.implemented).as_str());
    push_str(&mut script, ", inert-and-counted=");
    push_str(&mut script, display_count(nodes.inert_and_counted).as_str());
    push_str(&mut script, ", refused=");
    push_str(&mut script, display_count(nodes.refused).as_str());
    let ghost script_line = script@;
    lines.push(script);
    assert(views_of(lines@) =~= body + seq![Seq::<char>::empty(), totals_line, extracted_line, script_line]);
    let mut out: Vec<String> = Vec::new();
    let mut m: usize = 0;
    while m < lines.len()
        invariant
            m <= lines@.len(),
            text_views(out@) == views_of(lines@).take(m as int),
        decreases lines@.len() - m,
    {
        let ghost before = text_views(out@);
        let t = string_of(lines[m].as_slice());
        out.push(t);
        assert(text_views(out@) =~= before.push(t@));
        assert(text_views(out@) =~= views_of(lines@).take(m + 1));
        m = m + 1;
    }
    assert(views_of(lines@).take(lines@.len() as int) =~= views_of(lines@));
    proof {
        reveal_strlit("QUEST");
        reveal_strlit("STATUS");
    }
    assert(text_views(out@) =~= table_lines(rv, *summary, nodes));
    out
}

} // verus!
