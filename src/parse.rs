//! Turning one line of text into a `WorkObject`.
use vstd::prelude::*;
use crate::record::WorkObject;
use crate::vecs::reversed;

verus! {

/// What a JSON pointer finds in a document.
pub enum JsonLeaf {
    /// Nothing stands at the pointer.
    Absent,
    Null,
    Bool(bool),
    /// A number, with its value where it is an integer in the range of `u64`.
    Number(Option<u64>),
    Text(String),
    /// An array or an object.
    Composite,
}

/// Whether serde_json accepts the text as one JSON document.
pub uninterp spec fn json_accepts(text: Seq<char>) -> bool;

/// What serde_json finds at `pointer` in the document `text`.
pub uninterp spec fn json_leaf_at(text: Seq<char>, pointer: Seq<char>) -> JsonLeaf;

/// Relies on serde_json::from_str into a `Value`, which succeeds exactly on
/// well-formed JSON text, and on serde_json::Value::pointer, which looks a
/// value up by a JSON pointer; a number is read with
/// serde_json::Number::as_u64. All depend on their arguments alone.
#[verifier::external_body]
fn json_leaves(text: &str, pointers: &Vec<&str>) -> (r: Option<Vec<JsonLeaf>>)
    ensures
        r is Some <==> json_accepts(text@),
        r matches Some(v) ==> v@.len() == pointers@.len(),
        r matches Some(v) ==> forall|i: int|
            0 <= i < pointers@.len() ==> #[trigger] v@[i] == json_leaf_at(text@, pointers@[i]@),
{
    let doc = serde_json::from_str::<serde_json::Value>(text).ok()?;
    Some(pointers.iter().map(|p| match doc.pointer(p) {
        None => JsonLeaf::Absent,
        Some(serde_json::Value::Null) => JsonLeaf::Null,
        Some(serde_json::Value::Bool(b)) => JsonLeaf::Bool(*b),
        Some(serde_json::Value::Number(n)) => JsonLeaf::Number(n.as_u64()),
        Some(serde_json::Value::String(t)) => JsonLeaf::Text(t.clone()),
        Some(_) => JsonLeaf::Composite,
    }).collect())
}

/// What a line holds under one field name.
pub enum Slot<T> {
    /// Absent, or JSON null.
    Missing,
    Found(T),
    /// Present with a type the field does not take.
    Mistyped,
}

/// A required field yields its value only when found.
pub open spec fn required_ok<T>(s: Slot<T>) -> bool {
    s is Found
}

/// An optional field is fine unless it has the wrong type.
pub open spec fn optional_ok<T>(s: Slot<T>) -> bool {
    !(s is Mistyped)
}

pub open spec fn fits_u32(s: Slot<u64>) -> bool {
    s matches Slot::Found(n) ==> n <= u32::MAX
}

/// The fields of a line make a work: every required field is there with
/// its type, the optional ones have theirs, and the numbers fit.
pub open spec fn fields_make_work(
    id: Slot<String>,
    is_oa: Slot<bool>,
    oa_status: Slot<String>,
    cited_by_count: Slot<u64>,
    domain: Slot<String>,
    language: Slot<String>,
    publication_year: Slot<u64>,
    publication_date: Slot<String>,
) -> bool {
    &&& required_ok(id)
    &&& required_ok(is_oa)
    &&& required_ok(oa_status)
    &&& optional_ok(cited_by_count)
    &&& fits_u32(cited_by_count)
    &&& required_ok(domain)
    &&& required_ok(language)
    &&& required_ok(publication_year)
    &&& fits_u32(publication_year)
    &&& optional_ok(publication_date)
}

/// `w` holds the values of the fields: a missing citation count is zero
/// and a missing publication date is `None`.
pub open spec fn fields_give_work(
    id: Slot<String>,
    is_oa: Slot<bool>,
    oa_status: Slot<String>,
    cited_by_count: Slot<u64>,
    domain: Slot<String>,
    language: Slot<String>,
    publication_year: Slot<u64>,
    publication_date: Slot<String>,
    w: WorkObject,
) -> bool {
    &&& id == Slot::Found(w.id)
    &&& is_oa == Slot::Found(w.is_oa)
    &&& oa_status == Slot::Found(w.oa_status)
    &&& (cited_by_count matches Slot::Found(n) ==> w.cited_by_count == n)
    &&& (cited_by_count is Missing ==> w.cited_by_count == 0)
    &&& domain == Slot::Found(w.domain)
    &&& language == Slot::Found(w.language)
    &&& publication_year == Slot::Found(w.publication_year as u64)
    &&& (publication_date matches Slot::Found(d) ==> w.publication_date == Some(d))
    &&& (publication_date is Missing ==> w.publication_date is None)
}

/// Builds a work from the fields read off a line. An absent citation count
/// counts as zero; an absent publication date is `None`.
pub fn assemble_work(
    id: Slot<String>,
    is_oa: Slot<bool>,
    oa_status: Slot<String>,
    cited_by_count: Slot<u64>,
    domain: Slot<String>,
    language: Slot<String>,
    publication_year: Slot<u64>,
    publication_date: Slot<String>,
    raw: String,
) -> (r: Option<WorkObject>)
    ensures
        r is Some <==> fields_make_work(
            id,
            is_oa,
            oa_status,
            cited_by_count,
            domain,
            language,
            publication_year,
            publication_date,
        ),
        r matches Some(w) ==> fields_give_work(
            id,
            is_oa,
            oa_status,
            cited_by_count,
            domain,
            language,
            publication_year,
            publication_date,
            w,
        ) && w.raw == raw,
{
    let id = match id {
        Slot::Found(x) => x,
        _ => return None,
    };
    let is_oa = match is_oa {
        Slot::Found(x) => x,
        _ => return None,
    };
    let oa_status = match oa_status {
        Slot::Found(x) => x,
        _ => return None,
    };
    let cited: u32 = match cited_by_count {
        Slot::Found(n) => {
            if n > u32::MAX as u64 {
                return None;
            }
            n as u32
        },
        Slot::Missing => 0,
        Slot::Mistyped => return None,
    };
    let domain = match domain {
        Slot::Found(x) => x,
        _ => return None,
    };
    let language = match language {
        Slot::Found(x) => x,
        _ => return None,
    };
    let year: u32 = match publication_year {
        Slot::Found(n) => {
            if n > u32::MAX as u64 {
                return None;
            }
            n as u32
        },
        _ => return None,
    };
    let date = match publication_date {
        Slot::Found(d) => Some(d),
        Slot::Missing => None,
        Slot::Mistyped => return None,
    };
    Some(
        WorkObject {
            id,
            is_oa,
            oa_status,
            cited_by_count: cited,
            domain,
            language,
            publication_year: year,
            publication_date: date,
            raw,
        },
    )
}

/// A text field: absent and null are missing, a string is found.
pub open spec fn text_slot(l: JsonLeaf) -> Slot<String> {
    match l {
        JsonLeaf::Absent | JsonLeaf::Null => Slot::Missing,
        JsonLeaf::Text(t) => Slot::Found(t),
        _ => Slot::Mistyped,
    }
}

/// A boolean field.
pub open spec fn bool_slot(l: JsonLeaf) -> Slot<bool> {
    match l {
        JsonLeaf::Absent | JsonLeaf::Null => Slot::Missing,
        JsonLeaf::Bool(b) => Slot::Found(b),
        _ => Slot::Mistyped,
    }
}

/// A count field: a non-negative integer.
pub open spec fn count_slot(l: JsonLeaf) -> Slot<u64> {
    match l {
        JsonLeaf::Absent | JsonLeaf::Null => Slot::Missing,
        JsonLeaf::Number(Some(n)) => Slot::Found(n),
        _ => Slot::Mistyped,
    }
}

fn text_slot_of(l: JsonLeaf) -> (r: Slot<String>)
    ensures
        r == text_slot(l),
{
    match l {
        JsonLeaf::Absent | JsonLeaf::Null => Slot::Missing,
        JsonLeaf::Text(t) => Slot::Found(t),
        _ => Slot::Mistyped,
    }
}

fn bool_slot_of(l: JsonLeaf) -> (r: Slot<bool>)
    ensures
        r == bool_slot(l),
{
    match l {
        JsonLeaf::Absent | JsonLeaf::Null => Slot::Missing,
        JsonLeaf::Bool(b) => Slot::Found(b),
        _ => Slot::Mistyped,
    }
}

fn count_slot_of(l: JsonLeaf) -> (r: Slot<u64>)
    ensures
        r == count_slot(l),
{
    match l {
        JsonLeaf::Absent | JsonLeaf::Null => Slot::Missing,
        JsonLeaf::Number(Some(n)) => Slot::Found(n),
        _ => Slot::Mistyped,
    }
}

pub open spec fn id_of(t: Seq<char>) -> Slot<String> { text_slot(json_leaf_at(t, "/id"@)) }
pub open spec fn is_oa_of(t: Seq<char>) -> Slot<bool> { bool_slot(json_leaf_at(t, "/open_access/is_oa"@)) }
pub open spec fn oa_status_of(t: Seq<char>) -> Slot<String> { text_slot(json_leaf_at(t, "/open_access/oa_status"@)) }
pub open spec fn cited_of(t: Seq<char>) -> Slot<u64> { count_slot(json_leaf_at(t, "/cited_by_count"@)) }
pub open spec fn domain_of(t: Seq<char>) -> Slot<String> { text_slot(json_leaf_at(t, "/primary_topic/domain/display_name"@)) }
pub open spec fn language_of(t: Seq<char>) -> Slot<String> { text_slot(json_leaf_at(t, "/language"@)) }
pub open spec fn year_of(t: Seq<char>) -> Slot<u64> { count_slot(json_leaf_at(t, "/publication_year"@)) }
pub open spec fn date_of(t: Seq<char>) -> Slot<String> { text_slot(json_leaf_at(t, "/publication_date"@)) }

/// The line is JSON whose fields make a work.
pub open spec fn line_makes_work(t: Seq<char>) -> bool {
    &&& json_accepts(t)
    &&& fields_make_work(id_of(t), is_oa_of(t), oa_status_of(t), cited_of(t), domain_of(t), language_of(t), year_of(t), date_of(t))
}

/// `w` is the work that the line describes, with the line as its payload.
pub open spec fn work_of_line(w: WorkObject, t: Seq<char>) -> bool {
    &&& fields_give_work(id_of(t), is_oa_of(t), oa_status_of(t), cited_of(t), domain_of(t), language_of(t), year_of(t), date_of(t), w)
    &&& w.raw@ == t
}

/// Decodes one line into a work: `Some` exactly when the line is JSON
/// whose fields make a work, and then that work.
pub fn parse_line(line: &str) -> (r: Option<WorkObject>)
    ensures
        r is Some <==> line_makes_work(line@),
        r matches Some(w) ==> work_of_line(w, line@),
{
    let pointers: Vec<&str> = vec![
        "/id",
        "/open_access/is_oa",
        "/open_access/oa_status",
        "/cited_by_count",
        "/primary_topic/domain/display_name",
        "/language",
        "/publication_year",
        "/publication_date",
    ];
    let leaves = match json_leaves(line, &pointers) {
        Some(v) => v,
        None => return None,
    };
    let ghost all = leaves@;
    assert(all[0] == json_leaf_at(line@, pointers@[0]@));
    assert(all[1] == json_leaf_at(line@, pointers@[1]@));
    assert(all[2] == json_leaf_at(line@, pointers@[2]@));
    assert(all[3] == json_leaf_at(line@, pointers@[3]@));
    assert(all[4] == json_leaf_at(line@, pointers@[4]@));
    assert(all[5] == json_leaf_at(line@, pointers@[5]@));
    assert(all[6] == json_leaf_at(line@, pointers@[6]@));
    assert(all[7] == json_leaf_at(line@, pointers@[7]@));
    let mut rest = reversed(leaves);
    let id = text_slot_of(rest.pop().unwrap());
    let is_oa = bool_slot_of(rest.pop().unwrap());
    let oa_status = text_slot_of(rest.pop().unwrap());
    let cited = count_slot_of(rest.pop().unwrap());
    let domain = text_slot_of(rest.pop().unwrap());
    let language = text_slot_of(rest.pop().unwrap());
    let year = count_slot_of(rest.pop().unwrap());
    let date = text_slot_of(rest.pop().unwrap());
    assemble_work(id, is_oa, oa_status, cited, domain, language, year, date, line.to_owned())
}

} // verus!
