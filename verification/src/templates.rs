//! The template collection: a write-through cache of response templates.
//! A template's body is a tagged union over its kind: XML and regex
//! bodies retain no payload (degenerate variants, a future extension
//! point), a JSON body retains the parsed value, held as its canonical
//! rendering.

use vstd::prelude::*;
use crate::order::KeyOrder;
use crate::order::str_compare;
use crate::store::StoreError;
use crate::store::TemplateRow;
use crate::store::exec_insert_template;
use crate::store::exec_remove_template;
use crate::store::exec_update_template;
use crate::store::last_insert_id;
use crate::store::query_template_rows;

verus! {

/// The canonical rendering of the JSON value a string parses to; a
/// function of the characters alone.
pub uninterp spec fn json_canon(s: Seq<char>) -> Seq<char>;

/// Whether a string parses as a JSON value; a function of the characters
/// alone.
pub uninterp spec fn json_wf(s: Seq<char>) -> bool;

/// Relies on serde_json's `from_str` for `Value` and `Value`'s
/// `to_string`: whether a string parses, and the rendering of the value
/// it parses to, depend on the characters alone. The rendering is itself
/// valid JSON and parses back to an equal value, so rendering it again
/// returns it unchanged.
#[verifier::external_body]
fn json_canonical(s: &str) -> (r: Option<String>)
    ensures
        r is Some <==> json_wf(s@),
        r is Some ==> r->0@ == json_canon(s@),
        r is Some ==> json_wf(json_canon(s@)) && json_canon(json_canon(s@)) == json_canon(s@),
{
    match serde_json::from_str::<serde_json::Value>(s) {
        Ok(v) => Some(v.to_string()),
        Err(_) => None,
    }
}

/// A construction-time rejection; neither variant ever reaches the store.
#[derive(Clone, Copy, Debug, PartialEq, Eq, Structural)]
pub enum TemplateError {
    /// The kind tag was `json` but the text does not parse as JSON.
    InvalidTemplateBody,
    /// The kind tag is none of `xml`, `json`, `regex`.
    UnknownTemplateType,
}

/// A template's response body.
#[derive(Debug, Clone, PartialEq)]
pub enum TemplateBody {
    XMLTemplateBody,
    JsonTemplateBody { body: String },
    RegexTemplateBody,
}

/// The mathematical value of a template body.
pub enum BodyV {
    Xml,
    Json(Seq<char>),
    Regex,
}

impl View for TemplateBody {
    type V = BodyV;

    open spec fn view(&self) -> BodyV {
        match self {
            TemplateBody::XMLTemplateBody => BodyV::Xml,
            TemplateBody::JsonTemplateBody { body } => BodyV::Json(body@),
            TemplateBody::RegexTemplateBody => BodyV::Regex,
        }
    }
}

/// A JSON body holds a canonical rendering: valid JSON that renders to
/// itself. The other kinds hold nothing.
pub open spec fn body_wf(b: BodyV) -> bool {
    match b {
        BodyV::Json(c) => json_wf(c) && json_canon(c) == c,
        _ => true,
    }
}

/// What a kind tag and a body text construct: `None` when the tag is
/// unknown or a `json` text does not parse.
pub open spec fn body_of_row(kind: Seq<char>, text: Seq<char>) -> Option<BodyV> {
    if kind == "xml"@ {
        Some(BodyV::Xml)
    } else if kind == "json"@ {
        if json_wf(text) {
            Some(BodyV::Json(json_canon(text)))
        } else {
            None
        }
    } else if kind == "regex"@ {
        Some(BodyV::Regex)
    } else {
        None
    }
}

/// The kind tag a body renders under.
pub open spec fn body_kind_spec(b: BodyV) -> Seq<char> {
    match b {
        BodyV::Xml => "xml"@,
        BodyV::Json(_) => "json"@,
        BodyV::Regex => "regex"@,
    }
}

/// The text a body renders to: the canonical rendering for JSON, empty
/// for the kinds that retain no payload.
pub open spec fn body_text_spec(b: BodyV) -> Seq<char> {
    match b {
        BodyV::Json(c) => c,
        _ => Seq::empty(),
    }
}

/// Build a template body from its persisted or API form: dispatch on the
/// kind tag; `json` parses the text and is rejected when it does not
/// parse; an unknown tag is rejected outright.
pub fn build_template_body(kind: &str, text: &str) -> (r: Result<TemplateBody, TemplateError>)
    ensures
        match r {
            Ok(b) => body_of_row(kind@, text@) == Some(b@) && body_wf(b@),
            Err(TemplateError::InvalidTemplateBody) => kind@ == "json"@ && !json_wf(text@),
            Err(TemplateError::UnknownTemplateType) => kind@ != "xml"@ && kind@ != "json"@ && kind@
                != "regex"@,
        },
{
    if str_compare(kind, "xml") == KeyOrder::Equal {
        Ok(TemplateBody::XMLTemplateBody)
    } else if str_compare(kind, "json") == KeyOrder::Equal {
        match json_canonical(text) {
            Some(c) => Ok(TemplateBody::JsonTemplateBody { body: c }),
            None => Err(TemplateError::InvalidTemplateBody),
        }
    } else if str_compare(kind, "regex") == KeyOrder::Equal {
        Ok(TemplateBody::RegexTemplateBody)
    } else {
        Err(TemplateError::UnknownTemplateType)
    }
}

impl TemplateBody {
    /// Render the body back to its persisted and API form: the text and
    /// the kind tag. For a JSON body the text is the canonical rendering
    /// of the parsed value, not the original input bytes, so non-canonical
    /// formatting is not preserved across a store round trip.
    pub fn get_text_and_type(&self) -> (r: (String, &'static str))
        ensures
            r.0@ == body_text_spec(self@),
            r.1@ == body_kind_spec(self@),
    {
        match self {
            TemplateBody::JsonTemplateBody { body } => (body.clone(), "json"),
            TemplateBody::XMLTemplateBody => (String::new(), "xml"),
            TemplateBody::RegexTemplateBody => (String::new(), "regex"),
        }
    }
}

/// Rendering a JSON body built from valid text gives text that parses to
/// the same JSON value as that input text: the rendering differs from the
/// input at most in formatting, never in the value.
pub proof fn lemma_template_body_round_trip(text: Seq<char>, b: BodyV)
    requires
        body_of_row("json"@, text) == Some(b),
        body_wf(b),
    ensures
        json_wf(text),
        body_text_spec(b) == json_canon(text),
        json_wf(body_text_spec(b)),
        json_canon(body_text_spec(b)) == json_canon(text),
{
    reveal_strlit("xml");
    reveal_strlit("json");
    assert("json"@.len() != "xml"@.len());
}

/// A response variable: declared but not yet exercised by any operation,
/// carried as a future extension.
#[derive(Debug, Clone)]
pub enum Variables {
    ResponseHeader { key: String, value: String },
    FromHeader { key: String, value: String },
}

/// A response template.
#[derive(Debug, Clone)]
pub struct Template {
    /// Assigned by the store on creation; never client-supplied on add.
    pub id: u32,
    pub name: String,
    /// Not yet exercised by any operation; always empty today.
    pub vars: Vec<(String, Variables)>,
    pub body: TemplateBody,
}

/// The mathematical value of a template; the unexercised variables carry
/// no meaning and are left out.
pub struct TemplateV {
    pub id: u32,
    pub name: Seq<char>,
    pub body: BodyV,
}

impl View for Template {
    type V = TemplateV;

    open spec fn view(&self) -> TemplateV {
        TemplateV { id: self.id, name: self.name@, body: self.body@ }
    }
}

impl Template {
    /// The held body is well-formed.
    pub open spec fn wf(&self) -> bool {
        body_wf(self.body@)
    }

    /// Build a template from its persisted or API form; the body text and
    /// kind tag are checked as `build_template_body` says, before any
    /// store statement could be issued.
    pub fn new(id: u32, text: &str, name: String, template_type: &str) -> (r: Result<
        Template,
        TemplateError,
    >)
        ensures
            match r {
                Ok(t) => t@.id == id && t@.name == name@ && body_of_row(template_type@, text@)
                    == Some(t@.body) && t.wf(),
                Err(TemplateError::InvalidTemplateBody) => template_type@ == "json"@ && !json_wf(
                    text@,
                ),
                Err(TemplateError::UnknownTemplateType) => template_type@ != "xml"@
                    && template_type@ != "json"@ && template_type@ != "regex"@,
            },
    {
        match build_template_body(template_type, text) {
            Ok(body) => Ok(Template { id, name, vars: Vec::new(), body }),
            Err(e) => Err(e),
        }
    }
}

/// The same template under another id.
pub open spec fn with_id(t: TemplateV, id: u32) -> TemplateV {
    TemplateV { id, name: t.name, body: t.body }
}

/// Whether some entry of `s` carries the id.
pub open spec fn has_id(s: Seq<TemplateV>, id: u32) -> bool {
    exists|i: int| 0 <= i < s.len() && s[i].id == id
}

/// The position of the entry carrying `id`.
pub open spec fn idx_of(s: Seq<TemplateV>, id: u32) -> int {
    choose|i: int| 0 <= i < s.len() && s[i].id == id
}

/// Ids pairwise distinct and every entry's body well-formed.
pub open spec fn cache_wf(s: Seq<TemplateV>) -> bool {
    &&& forall|i: int, j: int| 0 <= i < j < s.len() ==> s[i].id != s[j].id
    &&& forall|i: int| 0 <= i < s.len() ==> body_wf(#[trigger] s[i].body)
}

/// Replace the entry carrying `t.id`, or append `t` when none does.
pub open spec fn upsert(s: Seq<TemplateV>, t: TemplateV) -> Seq<TemplateV> {
    if has_id(s, t.id) {
        s.update(idx_of(s, t.id), t)
    } else {
        s.push(t)
    }
}

/// Drop the entry carrying `id`, if any.
pub open spec fn remove_id(s: Seq<TemplateV>, id: u32) -> Seq<TemplateV> {
    if has_id(s, id) {
        s.remove(idx_of(s, id))
    } else {
        s
    }
}

/// What one persisted row decodes to; `None` on an unknown kind tag or a
/// JSON text that does not parse.
pub open spec fn decode_row_spec(row: TemplateRow) -> Option<TemplateV> {
    match body_of_row(row.template_type@, row.template_text@) {
        Some(b) => Some(TemplateV { id: row.id, name: row.name@, body: b }),
        None => None,
    }
}

/// What a full load of the table yields: every row decoded, in order, a
/// later row under the same id replacing an earlier one; `None` as soon
/// as any row is malformed.
pub open spec fn load_spec(rows: Seq<TemplateRow>) -> Option<Seq<TemplateV>>
    decreases rows.len(),
{
    if rows.len() == 0 {
        Some(Seq::empty())
    } else {
        match (load_spec(rows.drop_last()), decode_row_spec(rows.last())) {
            (Some(acc), Some(t)) => Some(upsert(acc, t)),
            _ => None,
        }
    }
}

/// The views of an executable template list.
pub open spec fn templates_view(v: Seq<Template>) -> Seq<TemplateV> {
    Seq::new(v.len(), |i: int| v[i]@)
}

/// Why an update was refused.
#[derive(Debug)]
pub enum UpdateError {
    /// No cached entity carries the given id; the store was not touched.
    NotFound,
    /// The store refused the statement; the cache is unchanged.
    Store(StoreError),
}

/// Why a load from the store failed.
#[derive(Debug)]
pub enum LoadError {
    /// The store refused the query.
    Store(StoreError),
    /// A persisted row is malformed: fatal, the cache is not replaced.
    Decode(TemplateError),
}

/// Upserting keeps ids unique and bodies well-formed.
pub proof fn lemma_upsert_wf(s: Seq<TemplateV>, t: TemplateV)
    requires
        cache_wf(s),
        body_wf(t.body),
    ensures
        cache_wf(upsert(s, t)),
        has_id(upsert(s, t), t.id),
{
    let r = upsert(s, t);
    if has_id(s, t.id) {
        let k = idx_of(s, t.id);
        assert(0 <= k < s.len() && s[k].id == t.id);
        assert forall|i: int, j: int| 0 <= i < j < r.len() implies r[i].id != r[j].id by {
            if i != k && j != k {
                assert(r[i] == s[i] && r[j] == s[j]);
            } else if i == k {
                assert(s[i].id == t.id && r[j] == s[j]);
            } else {
                assert(s[j].id == t.id && r[i] == s[i]);
            }
        }
        assert(r[k].id == t.id);
    } else {
        assert forall|i: int, j: int| 0 <= i < j < r.len() implies r[i].id != r[j].id by {
            if j == s.len() {
                assert(r[j] == t);
                assert(!(s[i].id == t.id));
            }
        }
        assert(r[s.len() as int].id == t.id);
    }
    assert forall|i: int| 0 <= i < r.len() implies body_wf(#[trigger] r[i].body) by {
        if r[i] != t {
            assert(r[i] == s[i]);
        }
    }
}

/// Dropping an id keeps ids unique and bodies well-formed.
pub proof fn lemma_remove_id_wf(s: Seq<TemplateV>, id: u32)
    requires
        cache_wf(s),
    ensures
        cache_wf(remove_id(s, id)),
        !has_id(remove_id(s, id), id),
{
    let r = remove_id(s, id);
    if has_id(s, id) {
        let k = idx_of(s, id);
        assert(0 <= k < s.len() && s[k].id == id);
        assert forall|i: int, j: int| 0 <= i < j < r.len() implies r[i].id != r[j].id by {
            let i0 = if i < k {
                i
            } else {
                i + 1
            };
            let j0 = if j < k {
                j
            } else {
                j + 1
            };
            assert(r[i] == s[i0] && r[j] == s[j0]);
        }
        assert forall|i: int| 0 <= i < r.len() implies body_wf(#[trigger] r[i].body) by {
            let i0 = if i < k {
                i
            } else {
                i + 1
            };
            assert(r[i] == s[i0]);
        }
        assert forall|i: int| 0 <= i < r.len() implies r[i].id != id by {
            let i0 = if i < k {
                i
            } else {
                i + 1
            };
            assert(r[i] == s[i0]);
            if i0 != k {
                assert(s[i0].id != s[k].id);
            }
        }
    }
}

/// In a cache with unique ids, the entry carrying an id is the only one.
pub proof fn lemma_unique_entry(s: Seq<TemplateV>, id: u32)
    requires
        cache_wf(s),
        has_id(s, id),
    ensures
        0 <= idx_of(s, id) < s.len(),
        s[idx_of(s, id)].id == id,
        forall|j: int| 0 <= j < s.len() && s[j].id == id ==> j == idx_of(s, id),
{
    let k = idx_of(s, id);
    assert(0 <= k < s.len() && s[k].id == id);
    assert forall|j: int| 0 <= j < s.len() && s[j].id == id implies j == k by {
        if j < k {
            assert(s[j].id != s[k].id);
        } else if j > k {
            assert(s[k].id != s[j].id);
        }
    }
}

/// Upserting `t` places `t` at the entry carrying `t.id` and leaves every
/// other entry as it stands.
pub proof fn lemma_upsert_entries(s: Seq<TemplateV>, t: TemplateV)
    requires
        cache_wf(s),
    ensures
        has_id(upsert(s, t), t.id),
        forall|i: int|
            0 <= i < upsert(s, t).len() && upsert(s, t)[i].id == t.id ==> upsert(s, t)[i] == t,
        forall|x: u32| x != t.id ==> (has_id(upsert(s, t), x) <==> has_id(s, x)),
{
    let r = upsert(s, t);
    if has_id(s, t.id) {
        let k = idx_of(s, t.id);
        lemma_unique_entry(s, t.id);
        assert(r[k] == t);
        assert forall|i: int| 0 <= i < r.len() && r[i].id == t.id implies r[i] == t by {
            if i != k {
                assert(r[i] == s[i]);
            }
        }
        assert forall|x: u32| x != t.id implies (has_id(r, x) <==> has_id(s, x)) by {
            if has_id(r, x) {
                let i = choose|i: int| 0 <= i < r.len() && r[i].id == x;
                assert(i != k);
                assert(s[i].id == x);
            }
            if has_id(s, x) {
                let i = choose|i: int| 0 <= i < s.len() && s[i].id == x;
                assert(i != k);
                assert(r[i].id == x);
            }
        }
    } else {
        let n = s.len() as int;
        assert(r[n] == t);
        assert forall|i: int| 0 <= i < r.len() && r[i].id == t.id implies r[i] == t by {
            if i < n {
                assert(r[i] == s[i]);
                assert(has_id(s, t.id));
            }
        }
        assert forall|x: u32| x != t.id implies (has_id(r, x) <==> has_id(s, x)) by {
            if has_id(r, x) {
                let i = choose|i: int| 0 <= i < r.len() && r[i].id == x;
                assert(i != n);
                assert(s[i].id == x);
            }
            if has_id(s, x) {
                let i = choose|i: int| 0 <= i < s.len() && s[i].id == x;
                assert(r[i].id == x);
            }
        }
    }
}

/// A committed add under a fresh id grows the collection by exactly one
/// entry and loses none: after N adds under pairwise distinct fresh ids,
/// the collection holds its starting entries plus the N new ones.
pub proof fn lemma_fresh_add_grows(s: Seq<TemplateV>, t: TemplateV)
    requires
        !has_id(s, t.id),
    ensures
        upsert(s, t).len() == s.len() + 1,
        upsert(s, t)[s.len() as int] == t,
        forall|i: int| 0 <= i < s.len() ==> upsert(s, t)[i] == s[i],
{
}

/// Dropping an id drops that entry alone: every other id is kept.
pub proof fn lemma_remove_id_entries(s: Seq<TemplateV>, id: u32)
    requires
        cache_wf(s),
    ensures
        !has_id(remove_id(s, id), id),
        forall|x: u32| x != id ==> (has_id(remove_id(s, id), x) <==> has_id(s, x)),
{
    lemma_remove_id_wf(s, id);
    let r = remove_id(s, id);
    if has_id(s, id) {
        let k = idx_of(s, id);
        lemma_unique_entry(s, id);
        assert forall|x: u32| x != id implies (has_id(r, x) <==> has_id(s, x)) by {
            if has_id(r, x) {
                let i = choose|i: int| 0 <= i < r.len() && r[i].id == x;
                let i0 = if i < k {
                    i
                } else {
                    i + 1
                };
                assert(r[i] == s[i0]);
                assert(s[i0].id == x);
            }
            if has_id(s, x) {
                let i = choose|i: int| 0 <= i < s.len() && s[i].id == x;
                assert(i != k);
                let i0 = if i < k {
                    i
                } else {
                    i - 1
                };
                assert(r[i0] == s[i]);
                assert(r[i0].id == x);
            }
        }
    }
}

/// Find the position of the entry carrying `id`, if any.
fn find_index(v: &Vec<Template>, id: u32) -> (r: Option<usize>)
    ensures
        match r {
            Some(j) => j < v@.len() && templates_view(v@)[j as int].id == id && has_id(
                templates_view(v@),
                id,
            ),
            None => !has_id(templates_view(v@), id),
        },
{
    let n = v.len();
    let mut i: usize = 0;
    while i < n
        invariant
            i <= n,
            n == v@.len(),
            forall|j: int| 0 <= j < i ==> templates_view(v@)[j].id != id,
        decreases n - i,
    {
        if v[i].id == id {
            proof {
                assert(templates_view(v@)[i as int] == v@[i as int]@);
            }
            return Some(i);
        }
        proof {
            assert(templates_view(v@)[i as int] == v@[i as int]@);
        }
        i = i + 1;
    }
    None
}

/// Apply a committed write to the cache: replace the entry carrying
/// `t.id`, or append `t` when none does.
fn cache_put(v: &mut Vec<Template>, t: Template)
    requires
        cache_wf(templates_view(old(v)@)),
        t.wf(),
    ensures
        templates_view(final(v)@) == upsert(templates_view(old(v)@), t@),
        cache_wf(templates_view(final(v)@)),
{
    let ghost s = templates_view(v@);
    proof {
        lemma_upsert_wf(s, t@);
    }
    match find_index(v, t.id) {
        Some(j) => {
            proof {
                lemma_unique_entry(s, t@.id);
                assert(idx_of(s, t@.id) == j as int);
            }
            let ghost before = v@;
            v.remove(j);
            v.insert(j, t);
            proof {
                assert forall|i: int| 0 <= i < v@.len() implies templates_view(v@)[i] == upsert(
                    s,
                    t@,
                )[i] by {
                    assert(templates_view(v@)[i] == v@[i]@);
                    if i != j as int {
                        assert(v@[i] == before[i]);
                        assert(templates_view(before)[i] == before[i]@);
                    }
                }
                assert(templates_view(v@) =~= upsert(s, t@));
            }
        },
        None => {
            let ghost before = v@;
            v.push(t);
            proof {
                assert forall|i: int| 0 <= i < v@.len() implies templates_view(v@)[i] == upsert(
                    s,
                    t@,
                )[i] by {
                    assert(templates_view(v@)[i] == v@[i]@);
                    if i < before.len() {
                        assert(v@[i] == before[i]);
                        assert(templates_view(before)[i] == before[i]@);
                    }
                }
                assert(templates_view(v@) =~= upsert(s, t@));
            }
        },
    }
}

/// Apply a committed delete to the cache: drop the entry carrying `id`.
fn cache_drop(v: &mut Vec<Template>, id: u32)
    requires
        cache_wf(templates_view(old(v)@)),
    ensures
        templates_view(final(v)@) == remove_id(templates_view(old(v)@), id),
        cache_wf(templates_view(final(v)@)),
{
    let ghost s = templates_view(v@);
    proof {
        lemma_remove_id_wf(s, id);
    }
    match find_index(v, id) {
        Some(j) => {
            proof {
                lemma_unique_entry(s, id);
                assert(idx_of(s, id) == j as int);
            }
            let ghost before = v@;
            v.remove(j);
            proof {
                assert forall|i: int| 0 <= i < v@.len() implies templates_view(v@)[i] == remove_id(
                    s,
                    id,
                )[i] by {
                    assert(templates_view(v@)[i] == v@[i]@);
                    let i0 = if i < j as int {
                        i
                    } else {
                        i + 1
                    };
                    assert(v@[i] == before[i0]);
                    assert(templates_view(before)[i0] == before[i0]@);
                }
                assert(templates_view(v@) =~= remove_id(s, id));
            }
        },
        None => {
        },
    }
}

/// A malformed prefix makes the whole load malformed.
proof fn lemma_load_spec_prefix_none(rows: Seq<TemplateRow>, k: int)
    requires
        0 <= k <= rows.len(),
        load_spec(rows.take(k)) is None,
    ensures
        load_spec(rows) is None,
    decreases rows.len() - k,
{
    if k < rows.len() {
        assert(rows.take(k + 1).drop_last() =~= rows.take(k));
        lemma_load_spec_prefix_none(rows, k + 1);
    } else {
        assert(rows.take(k) =~= rows);
    }
}

/// The in-memory side of the template collection: the authoritative cache
/// of every persisted template, keyed by id.
pub struct TemplateService {
    templates: Vec<Template>,
}

impl View for TemplateService {
    type V = Seq<TemplateV>;

    closed spec fn view(&self) -> Seq<TemplateV> {
        templates_view(self.templates@)
    }
}

impl TemplateService {
    /// Ids pairwise distinct, bodies well-formed.
    pub open spec fn wf(&self) -> bool {
        cache_wf(self@)
    }

    /// Build the cache from a full read of the table: every row decoded,
    /// in order, a later duplicate id replacing an earlier one. Any row
    /// that fails decoding fails the whole load: the service refuses to
    /// start on partially decoded data.
    #[verifier::loop_isolation(false)]
    pub fn from_rows(rows: Vec<TemplateRow>) -> (r: Result<TemplateService, TemplateError>)
        ensures
            match r {
                Ok(s) => load_spec(rows@) == Some(s@) && s.wf(),
                Err(_) => load_spec(rows@) is None,
            },
    {
        let ghost all = rows@;
        let mut rows = rows;
        let mut cache: Vec<Template> = Vec::new();
        let ghost mut k: int = 0;
        proof {
            assert(rows@ =~= all.skip(0));
            assert(all.take(0) =~= Seq::<TemplateRow>::empty());
            assert(templates_view(cache@) =~= Seq::<TemplateV>::empty());
        }
        while rows.len() > 0
            invariant
                0 <= k <= all.len(),
                rows@ == all.skip(k),
                load_spec(all.take(k)) == Some(templates_view(cache@)),
                cache_wf(templates_view(cache@)),
            decreases rows@.len(),
        {
            proof {
                assert(all.skip(k).len() == all.len() - k);
            }
            let ghost old_rows = rows@;
            let row = rows.remove(0);
            proof {
                assert(old_rows[0] == all.skip(k)[0]);
                assert(all.skip(k)[0] == all[k]);
            }
            let t = match Template::new(
                row.id,
                row.template_text.as_str(),
                row.name,
                row.template_type.as_str(),
            ) {
                Ok(t) => t,
                Err(e) => {
                    proof {
                        reveal_strlit("xml");
                        reveal_strlit("json");
                        assert("json"@.len() != "xml"@.len());
                        assert(decode_row_spec(all[k]) is None);
                        assert(all.take(k + 1).drop_last() =~= all.take(k));
                        assert(all.take(k + 1).last() == all[k]);
                        assert(load_spec(all.take(k + 1)) is None);
                        lemma_load_spec_prefix_none(all, k + 1);
                    }
                    return Err(e);
                },
            };
            proof {
                assert(decode_row_spec(all[k]) == Some(t@));
                assert(all.take(k + 1).drop_last() =~= all.take(k));
                assert(all.take(k + 1).last() == all[k]);
            }
            cache_put(&mut cache, t);
            proof {
                k = k + 1;
                assert(rows@ =~= all.skip(k));
            }
        }
        proof {
            assert(all.take(k) =~= all);
        }
        Ok(TemplateService { templates: cache })
    }

    /// Load the collection from the store. A store failure or a malformed
    /// row is a fatal startup error: no partially loaded service is
    /// handed out.
    pub fn new(conn: &rusqlite::Connection) -> (r: Result<TemplateService, LoadError>)
        ensures
            r is Ok ==> r->Ok_0.wf(),
    {
        let rows = match query_template_rows(conn) {
            Ok(rows) => rows,
            Err(e) => {
                return Err(LoadError::Store(e));
            },
        };
        match TemplateService::from_rows(rows) {
            Ok(s) => Ok(s),
            Err(e) => Err(LoadError::Decode(e)),
        }
    }

    /// Reload the whole cache from the store, discarding in-memory state;
    /// the corrective operation after an external store change. On any
    /// failure the held cache stands unchanged.
    pub fn refresh(&mut self, conn: &rusqlite::Connection) -> (r: Result<(), LoadError>)
        requires
            old(self).wf(),
        ensures
            final(self).wf(),
            r is Err ==> final(self)@ == old(self)@,
    {
        let rows = match query_template_rows(conn) {
            Ok(rows) => rows,
            Err(e) => {
                return Err(LoadError::Store(e));
            },
        };
        match TemplateService::from_rows(rows) {
            Ok(s) => {
                self.templates = s.templates;
                Ok(())
            },
            Err(e) => Err(LoadError::Decode(e)),
        }
    }

    /// The cached templates: a consistent snapshot of the collection.
    pub fn list(&self) -> (r: &Vec<Template>)
        ensures
            templates_view(r@) == self@,
    {
        &self.templates
    }

    /// Add a template: store first, cache second. The store assigns the
    /// id, which is returned; the candidate's own id is ignored. On a
    /// store failure the cache is untouched and the error is surfaced.
    pub fn add_template(&mut self, conn: &rusqlite::Connection, template: Template) -> (r: Result<
        u32,
        StoreError,
    >)
        requires
            old(self).wf(),
            template.wf(),
        ensures
            final(self).wf(),
            match r {
                Ok(id) => final(self)@ == upsert(old(self)@, with_id(template@, id)),
                Err(_) => final(self)@ == old(self)@,
            },
    {
        let ghost tv = template@;
        let rendered = template.body.get_text_and_type();
        match exec_insert_template(conn, rendered.0.as_str(), template.name.as_str(), rendered.1) {
            Ok(_) => {
                let id = last_insert_id(conn);
                let mut t = template;
                t.id = id;
                proof {
                    assert(t@ == with_id(tv, id));
                }
                cache_put(&mut self.templates, t);
                Ok(id)
            },
            Err(e) => Err(e),
        }
    }

    /// Remove a template by id: store first, cache second. An id absent
    /// from the store deletes zero rows, which the store reports as
    /// success, and the cache removal proceeds: the operation is
    /// idempotent.
    pub fn remove_template(&mut self, conn: &rusqlite::Connection, id: u32) -> (r: Result<
        (),
        StoreError,
    >)
        requires
            old(self).wf(),
        ensures
            final(self).wf(),
            match r {
                Ok(_) => final(self)@ == remove_id(old(self)@, id),
                Err(_) => final(self)@ == old(self)@,
            },
    {
        match exec_remove_template(conn, id) {
            Ok(_) => {
                cache_drop(&mut self.templates, id);
                Ok(())
            },
            Err(e) => Err(e),
        }
    }

    /// Update a template under its existing id. An id absent from the
    /// cache fails with `NotFound` before any store statement is issued,
    /// leaving cache and store as they stand; otherwise the store is
    /// written first and the cache entry replaced wholesale after.
    pub fn update_template(&mut self, conn: &rusqlite::Connection, template: Template) -> (r:
        Result<(), UpdateError>)
        requires
            old(self).wf(),
            template.wf(),
        ensures
            final(self).wf(),
            match r {
                Ok(_) => has_id(old(self)@, template@.id) && final(self)@ == upsert(
                    old(self)@,
                    template@,
                ),
                Err(UpdateError::NotFound) => !has_id(old(self)@, template@.id) && final(self)@
                    == old(self)@,
                Err(UpdateError::Store(_)) => has_id(old(self)@, template@.id) && final(self)@
                    == old(self)@,
            },
    {
        if find_index(&self.templates, template.id).is_none() {
            return Err(UpdateError::NotFound);
        }
        let rendered = template.body.get_text_and_type();
        match exec_update_template(
            conn,
            rendered.0.as_str(),
            template.name.as_str(),
            rendered.1,
            template.id,
        ) {
            Ok(_) => {
                cache_put(&mut self.templates, template);
                Ok(())
            },
            Err(e) => Err(UpdateError::Store(e)),
        }
    }
}

} // verus!
