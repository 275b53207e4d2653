use vstd::prelude::*;
use vstd::string::StringExecFns;

use crate::codec::{encode_collection, load, parse_collection};
use crate::error::ApiError;
use crate::record::{created, deleted, has_title, is_first_with_title};

verus! {

/// The greeting served at the root path.
pub fn index() -> (r: &'static str)
    ensures
        r@ == "Hello, todo list!"@,
{
    "Hello, todo list!"
}

/// Answers a list request against the stored document `text`: the whole
/// document without a query, else the content of the first record titled
/// `query`.
pub fn return_list(text: &str, query: Option<&String>) -> (r: Result<String, ApiError>)
    ensures
        match parse_collection(text@) {
            None => r matches Err(e) && e is Parse,
            Some(c) => match query {
                None => r matches Ok(s) && s@ == encode_collection(c),
                Some(q) => if has_title(c, q@) {
                    r matches Ok(s) && exists|i: int| is_first_with_title(c, q@, i) && s@ == c[i].1
                } else {
                    r matches Err(e) && e is NotFound
                },
            },
        },
{
    let data = load(text)?;
    match query {
        None => Ok(data.to_json_string()),
        Some(q) => {
            let rec = data.find_by_title(q)?;
            Ok(rec.content)
        },
    }
}

/// Decides a create request against the stored document `text`: the new
/// document to write, with the record appended, unless the title is taken.
pub fn post_data(text: &str, title: String, content: String) -> (r: Result<String, ApiError>)
    ensures
        match parse_collection(text@) {
            None => r matches Err(e) && e is Parse,
            Some(c) => match created(c, title@, content@) {
                None => r matches Err(e) && e is AlreadyExists,
                Some(d) => r matches Ok(s) && s@ == encode_collection(d) && parse_collection(s@)
                    == Some(d),
            },
        },
{
    let mut data = load(text)?;
    data.create(title, content)?;
    Ok(data.to_json_string())
}

/// Decides a delete request against the stored document `text`: the new
/// document to write, without any record titled `query`.
pub fn delete_item(text: &str, query: &String) -> (r: Result<String, ApiError>)
    ensures
        match parse_collection(text@) {
            None => r matches Err(e) && e is Parse,
            Some(c) => r matches Ok(s) && s@ == encode_collection(deleted(c, query@))
                && parse_collection(s@) == Some(deleted(c, query@)),
        },
{
    let mut data = load(text)?;
    data.delete_by_title(query);
    Ok(data.to_json_string())
}

/// The answer to a mutation once the new document was written, given how many
/// bytes the write reported: none written is a failure.
pub fn save_outcome(written: usize) -> (r: Result<String, ApiError>)
    ensures
        written == 0 ==> (r matches Err(e) && e is FailedSaving),
        written > 0 ==> (r matches Ok(s) && s@ == "Success saving\n"@),
{
    if written == 0 {
        Err(ApiError::FailedSaving)
    } else {
        Ok(String::from_str("Success saving\n"))
    }
}

} // verus!
