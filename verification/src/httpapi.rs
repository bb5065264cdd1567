//! The decisions of the HTTP layer: query parameters and error answers.
use vstd::prelude::*;
use vstd::string::StringExecFns;
use crate::store::StoreError;
use crate::text::{self, trimmed};

verus! {

/// The integer that `s` spells: an optional `+` or `-` followed by at least
/// one ASCII digit, within the range of `i64`; nothing otherwise.
pub open spec fn spec_parse_i64(s: Seq<char>) -> Option<i64> {
    let signed = s.len() > 0 && (s[0] == '+' || s[0] == '-');
    let d = if signed {
        s.drop_first()
    } else {
        s
    };
    let v = if s.len() > 0 && s[0] == '-' {
        -text::decimal_value(d)
    } else {
        text::decimal_value(d)
    };
    if d.len() == 0 || !text::all_ascii_digits(d) || v < i64::MIN || v > i64::MAX {
        None
    } else {
        Some(v as i64)
    }
}

/// Parses a decimal `i64` (`str::parse::<i64>`, keeping only success);
/// the standard documentation gives the accepted form: an optional sign
/// followed by digits, in range.
#[verifier::external_body]
fn parse_i64(s: &str) -> (r: Option<i64>)
    ensures
        r == spec_parse_i64(s@),
{
    s.parse::<i64>().ok()
}

/// The row limit a request asks for: the trimmed parameter read as a
/// positive integer, 0 when it is missing, malformed or not positive.
pub fn parse_limit(raw: Option<&String>) -> (r: i64)
    ensures
        r == match raw {
            None => 0,
            Some(s) => match spec_parse_i64(text::trim_seq(s@)) {
                Some(v) => if v > 0 {
                    v
                } else {
                    0
                },
                None => 0,
            },
        },
{
    match raw {
        None => 0,
        Some(s) => {
            let t = trimmed(s.as_str());
            match parse_i64(t.as_str()) {
                Some(v) => if v > 0 {
                    v
                } else {
                    0
                },
                None => 0,
            }
        },
    }
}

/// An error answer: an HTTP status code and a message.
pub struct ApiFailure {
    pub status: u16,
    pub message: String,
}

/// A "bad request" answer with the given message.
pub fn bad_request(message: &str) -> (r: ApiFailure)
    ensures
        r.status == 400,
        r.message@ == message@,
{
    ApiFailure { status: 400, message: message.to_owned() }
}

/// A path segment as a lookup key: trimmed; an empty one is a bad request
/// answered with `missing`.
pub fn path_value(raw: &str, missing: &str) -> (r: Result<String, ApiFailure>)
    ensures
        match r {
            Ok(v) => v@ == text::trim_seq(raw@) && v@.len() > 0,
            Err(f) => text::trim_seq(raw@).len() == 0 && f.status == 400 && f.message@ == missing@,
        },
{
    let v = trimmed(raw);
    if v.as_str().is_empty() {
        Err(bad_request(missing))
    } else {
        Ok(v)
    }
}

/// The text of a `sqlx` error (`ToString::to_string` through its `Display`).
/// Nothing is stated of it: it is fixed by the error value, but that value
/// is opaque here, so no name can stand for the text; `failure_with_detail`
/// states what is made of it.
#[verifier::external_body]
fn sqlx_error_text(e: &sqlx::Error) -> String {
    e.to_string()
}

/// The HTTP status for a failed lookup: 400 for an empty key, 404 for
/// something not found, 500 for a failed query.
pub open spec fn store_error_status(err: StoreError) -> u16 {
    match err {
        StoreError::EmptyItemCode | StoreError::EmptyWarehouse => 400,
        StoreError::ItemNotFound(_) | StoreError::WarehouseNotFound(_) => 404,
        _ => 500,
    }
}

/// The message of a failed lookup before trimming; for a failed query, the
/// prefix that the database's own message follows.
pub open spec fn store_error_text(err: StoreError) -> Seq<char> {
    match err {
        StoreError::SearchItems(_) => "search items query: "@,
        StoreError::GetItem(_) => "get item query: "@,
        StoreError::SearchWarehouses(_) => "search warehouses query: "@,
        StoreError::GetWarehouse(_) => "get warehouse query: "@,
        StoreError::EmptyItemCode => "item code is empty"@,
        StoreError::ItemNotFound(code) => "item topilmadi: "@ + code@,
        StoreError::EmptyWarehouse => "warehouse is empty"@,
        StoreError::WarehouseNotFound(name) => "warehouse topilmadi: "@ + name@,
    }
}

/// Whether the error carries a database error, whose text follows the prefix.
pub open spec fn is_query_error(err: StoreError) -> bool {
    err is SearchItems || err is GetItem || err is SearchWarehouses || err is GetWarehouse
}

/// The text a query error's message carries after its prefix: `detail`
/// for a failed query, nothing otherwise.
pub open spec fn error_detail(err: StoreError, detail: Seq<char>) -> Seq<char> {
    if is_query_error(err) {
        detail
    } else {
        seq![]
    }
}

/// The answer to a failed lookup whose database error (if any) reads
/// `detail`: its status and its trimmed message.
pub fn failure_with_detail(err: &StoreError, detail: &str) -> (r: ApiFailure)
    ensures
        r.status == store_error_status(*err),
        r.message@ == text::trim_seq(store_error_text(*err) + error_detail(*err, detail@)),
{
    let mut text = String::new();
    let status: u16 = match err {
        StoreError::SearchItems(_) => {
            text.append("search items query: ");
            text.append(detail);
            500
        },
        StoreError::GetItem(_) => {
            text.append("get item query: ");
            text.append(detail);
            500
        },
        StoreError::SearchWarehouses(_) => {
            text.append("search warehouses query: ");
            text.append(detail);
            500
        },
        StoreError::GetWarehouse(_) => {
            text.append("get warehouse query: ");
            text.append(detail);
            500
        },
        StoreError::EmptyItemCode => {
            text.append("item code is empty");
            400
        },
        StoreError::ItemNotFound(code) => {
            text.append("item topilmadi: ");
            text.append(code.as_str());
            404
        },
        StoreError::EmptyWarehouse => {
            text.append("warehouse is empty");
            400
        },
        StoreError::WarehouseNotFound(name) => {
            text.append("warehouse topilmadi: ");
            text.append(name.as_str());
            404
        },
    };
    assert(text@ =~= store_error_text(*err) + error_detail(*err, detail@));
    let message = trimmed(text.as_str());
    ApiFailure { status, message }
}

/// The answer to a failed lookup: its status and its trimmed message, which
/// for a failed query ends with the database's own description of the error.
pub fn failure_from_store(err: &StoreError) -> (r: ApiFailure)
    ensures
        r.status == store_error_status(*err),
        !is_query_error(*err) ==> r.message@ == text::trim_seq(store_error_text(*err)),
        is_query_error(*err) ==> exists|detail: Seq<char>|
            r.message@ == text::trim_seq(store_error_text(*err) + detail),
{
    let detail = match err {
        StoreError::SearchItems(e) => sqlx_error_text(e),
        StoreError::GetItem(e) => sqlx_error_text(e),
        StoreError::SearchWarehouses(e) => sqlx_error_text(e),
        StoreError::GetWarehouse(e) => sqlx_error_text(e),
        _ => String::new(),
    };
    let r = failure_with_detail(err, detail.as_str());
    assert(!is_query_error(*err) ==> store_error_text(*err) + error_detail(*err, detail@)
        =~= store_error_text(*err));
    r
}

} // verus!
