//! Text-level store operations: whole-store parse, mandatory and
//! defaulted lookup, and upsert.
//!
//! Each operation works on the full store text; the surrounding
//! application reads the backing file, calls one of these, and writes the
//! result back.  A missing key is only an error for [`get`]; [`get_or`]
//! absorbs it and returns the default.

use vstd::prelude::*;

use crate::config::{
    deserialize, entries_from, find_key, lemma_entries_from, serialize, upsert_vec, Types,
};
use crate::errors::{ParseError, StoreError};
use crate::model::{get_or_spec, get_spec, lemma_first_key_idx, parse_store_spec, set_spec};

verus! {

/// All entries of the store text, exactly as [`parse_store_spec`].
pub fn config(text: &str) -> (r: Result<Vec<(String, Types)>, ParseError>)
    ensures
        match parse_store_spec(text@) {
            Ok(es) => r matches Ok(v) && entries_from(v@, 0) == es,
            Err(e) => r == Err::<Vec<(String, Types)>, ParseError>(e),
        },
{
    serialize(text.to_owned())
}

/// The value under `key`, exactly as [`get_spec`]: a parse failure or a
/// missing key is an explicit error.
pub fn get(text: &str, key: &str) -> (r: Result<Types, StoreError>)
    ensures
        match get_spec(text@, key@) {
            Ok(v) => r matches Ok(t) && t@ == v,
            Err(e) => r == Err::<Types, StoreError>(e),
        },
{
    match config(text) {
        Err(e) => Err(StoreError::Parse(e)),
        Ok(m) => {
            let k = key.to_owned();
            match find_key(&m, &k) {
                Some(i) => {
                    proof {
                        lemma_first_key_idx(entries_from(m@, 0), key@, 0);
                        lemma_entries_from(m@, 0);
                    }
                    Ok(m[i].1.duplicate())
                },
                None => Err(StoreError::KeyNotFound),
            }
        },
    }
}

/// The value under `key`, or the default when the key is absent, exactly
/// as [`get_or_spec`]; only a store text that does not parse is an error.
pub fn get_or(text: &str, key: &str, default: Types) -> (r: Result<Types, ParseError>)
    ensures
        match get_or_spec(text@, key@, default@) {
            Ok(v) => r matches Ok(t) && t@ == v,
            Err(e) => r == Err::<Types, ParseError>(e),
        },
{
    match config(text) {
        Err(e) => Err(e),
        Ok(m) => {
            let k = key.to_owned();
            match find_key(&m, &k) {
                Some(i) => {
                    proof {
                        lemma_first_key_idx(entries_from(m@, 0), key@, 0);
                        lemma_entries_from(m@, 0);
                    }
                    Ok(m[i].1.duplicate())
                },
                None => Ok(default),
            }
        },
    }
}

/// New store text with `key` set to `value`, exactly as [`set_spec`]:
/// parse the whole text, replace or append the entry, render it back.
pub fn set(text: &str, key: &str, value: Types) -> (r: Result<String, ParseError>)
    ensures
        match set_spec(text@, key@, value@) {
            Ok(out) => r matches Ok(s) && s@ == out,
            Err(e) => r == Err::<String, ParseError>(e),
        },
{
    match config(text) {
        Err(e) => Err(e),
        Ok(m) => {
            let m2 = upsert_vec(m, key.to_owned(), value);
            Ok(deserialize(m2))
        },
    }
}

} // verus!
