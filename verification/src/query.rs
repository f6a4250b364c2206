//! Queries on a value by a path.

use vstd::prelude::*;
use crate::error::Error;
use crate::raw::RawJsonb;
use crate::jsonpath::path::JsonPath;
use crate::jsonpath::selector::{
    Selector, Mode, select_values, written_data, written_offsets, predicate_spec,
};

verus! {

/// What writing the values that a path takes leaves in the data and in the
/// offsets.
pub open spec fn written(
    mode: Mode,
    root: Seq<u8>,
    path: JsonPath,
    data_before: Seq<u8>,
    data_after: Seq<u8>,
    offsets_before: Seq<u64>,
    offsets_after: Seq<u64>,
    r: Result<(), Error>,
) -> bool {
    match select_values(root, path@) {
        Err(e) => r == Err::<(), Error>(e) && data_after == data_before && offsets_after
            == offsets_before,
        Ok(values) => match written_data(mode, values, data_before) {
            Err(e) => r == Err::<(), Error>(e) && data_after == data_before && offsets_after
                == offsets_before,
            Ok(d) => r is Ok && data_after == d && offsets_after == written_offsets(
                mode,
                values,
                data_before,
                offsets_before,
            ),
        },
    }
}

impl<'a> RawJsonb<'a> {
    /// Whether a path takes a value from the value.
    pub fn path_exists(&self, json_path: JsonPath) -> (r: Result<bool, Error>)
        ensures
            match select_values(self@, json_path@) {
                Err(e) => r == Err::<bool, Error>(e),
                Ok(values) => r == Ok::<bool, Error>(values.len() > 0),
            },
    {
        let selector = Selector::new(json_path, Mode::Mixed);
        selector.has_match(self.0)
    }

    /// Whether the filter that a path ends with keeps a value.
    pub fn path_match(&self, json_path: JsonPath) -> (r: Result<bool, Error>)
        ensures
            r == predicate_spec(self@, json_path@),
    {
        let selector = Selector::new(json_path, Mode::First);
        selector.predicate_match(self.0)
    }

    /// Writes every value that a path takes from the value.
    pub fn get_by_path(&self, json_path: JsonPath, data: &mut Vec<u8>, offsets: &mut Vec<u64>) -> (r:
        Result<(), Error>)
        ensures
            written(
                Mode::Mixed,
                self@,
                json_path,
                old(data)@,
                final(data)@,
                old(offsets)@,
                final(offsets)@,
                r,
            ),
    {
        let selector = Selector::new(json_path, Mode::Mixed);
        selector.select(self.0, data, offsets)
    }

    /// Writes the first value that a path takes from the value.
    pub fn get_by_path_first(
        &self,
        json_path: JsonPath,
        data: &mut Vec<u8>,
        offsets: &mut Vec<u64>,
    ) -> (r: Result<(), Error>)
        ensures
            written(
                Mode::First,
                self@,
                json_path,
                old(data)@,
                final(data)@,
                old(offsets)@,
                final(offsets)@,
                r,
            ),
    {
        let selector = Selector::new(json_path, Mode::First);
        selector.select(self.0, data, offsets)
    }

    /// Writes the array of the values that a path takes from the value.
    pub fn get_by_path_array(
        &self,
        json_path: JsonPath,
        data: &mut Vec<u8>,
        offsets: &mut Vec<u64>,
    ) -> (r: Result<(), Error>)
        ensures
            written(
                Mode::Array,
                self@,
                json_path,
                old(data)@,
                final(data)@,
                old(offsets)@,
                final(offsets)@,
                r,
            ),
    {
        let selector = Selector::new(json_path, Mode::Array);
        selector.select(self.0, data, offsets)
    }
}

} // verus!
