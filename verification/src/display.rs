//! The JSON text of a value given as bytes, and the tests for keys.

use vstd::prelude::*;
use vstd::utf8::{valid_utf8, decode_utf8};
use crate::error::Error;
use crate::raw::RawJsonb;
use crate::codec::{read_u32, read_word, header_tag, header_len, decode_header};
use crate::constants::{
    ARRAY_CONTAINER_TAG, OBJECT_CONTAINER_TAG, SCALAR_CONTAINER_TAG, STRING_TAG,
};
use crate::iterator::{
    RawItem, RawEntry, items_view, entries_view, container_items, object_entries, iterate_array,
    iterate_object_entries,
};
use crate::text::{PrettyOpts, text_of, null_text, push_null, lossy_string, lossy_text};
use crate::parser::{text_to_jsonb, parse_value, is_utf8};
use crate::mutate::has_key;
use crate::bytes::bytes_eq;

verus! {

/// The bytes of the JSON text of a value given as bytes: the text of a
/// value in its binary form; else the text of what the bytes hold as JSON
/// text; else `null`.
pub open spec fn display_bytes(s: Seq<u8>, opts: PrettyOpts) -> Seq<u8> {
    match text_of(s, opts) {
        Ok(t) => t,
        Err(_) => match text_to_jsonb(s) {
            Ok(b) => match text_of(b, opts) {
                Ok(t) => t,
                Err(_) => null_text(),
            },
            Err(_) => null_text(),
        },
    }
}

/// Whether an element of `items` is the string `key`.
pub open spec fn has_string(items: Seq<RawItem>, key: Seq<u8>) -> bool {
    exists|i: int|
        0 <= i < items.len() && (#[trigger] items[i]).jentry.type_code == STRING_TAG && items[i].data
            == key
}

/// Whether a key exists in a value: as the key of a member of an object, or
/// as a string among the elements of an array. No key exists in a scalar.
pub open spec fn exists_key_spec(s: Seq<u8>, header: u32, key: Seq<u8>) -> Result<bool, Error> {
    if header_tag(header) == OBJECT_CONTAINER_TAG {
        match object_entries(s, header_len(header)) {
            Err(e) => Err(e),
            Ok(es) => Ok(has_key(es, key)),
        }
    } else if header_tag(header) == ARRAY_CONTAINER_TAG {
        match container_items(s, header_len(header)) {
            Err(e) => Err(e),
            Ok(items) => Ok(has_string(items, key)),
        }
    } else if header_tag(header) == SCALAR_CONTAINER_TAG {
        Ok(false)
    } else {
        Err(Error::InvalidJsonb)
    }
}

/// Whether the keys from position `i` on all exist: each is UTF-8 and
/// exists in the value.
pub open spec fn all_keys_from(s: Seq<u8>, header: u32, keys: Seq<&[u8]>, i: nat) -> Result<
    bool,
    Error,
>
    decreases keys.len() - i,
{
    if i >= keys.len() {
        Ok(true)
    } else if !valid_utf8(keys[i as int]@) {
        Ok(false)
    } else {
        match exists_key_spec(s, header, keys[i as int]@) {
            Err(e) => Err(e),
            Ok(found) => if found {
                all_keys_from(s, header, keys, i + 1)
            } else {
                Ok(false)
            },
        }
    }
}

/// Whether one of the keys from position `i` on exists: it is UTF-8 and
/// exists in the value.
pub open spec fn any_key_from(s: Seq<u8>, header: u32, keys: Seq<&[u8]>, i: nat) -> Result<
    bool,
    Error,
>
    decreases keys.len() - i,
{
    if i >= keys.len() {
        Ok(false)
    } else if !valid_utf8(keys[i as int]@) {
        any_key_from(s, header, keys, i + 1)
    } else {
        match exists_key_spec(s, header, keys[i as int]@) {
            Err(e) => Err(e),
            Ok(found) => if found {
                Ok(true)
            } else {
                any_key_from(s, header, keys, i + 1)
            },
        }
    }
}

/// What `exists_all_keys` gives.
pub open spec fn exists_all_keys_spec(s: Seq<u8>, keys: Seq<&[u8]>) -> Result<bool, Error> {
    match read_word(s, 0) {
        Err(e) => Err(e),
        Ok(h) => all_keys_from(s, h, keys, 0),
    }
}

/// What `exists_any_keys` gives.
pub open spec fn exists_any_keys_spec(s: Seq<u8>, keys: Seq<&[u8]>) -> Result<bool, Error> {
    match read_word(s, 0) {
        Err(e) => Err(e),
        Ok(h) => any_key_from(s, h, keys, 0),
    }
}

impl<'a> RawJsonb<'a> {
    /// The bytes of the JSON text of the value.
    pub fn to_json_bytes(&self, pretty: bool) -> (r: Vec<u8>)
        ensures
            r@ == display_bytes(self@, PrettyOpts { enabled: pretty, indent: 0 }),
    {
        let opts = PrettyOpts::new(pretty);
        let mut json: Vec<u8> = Vec::new();
        if Self::container_to_string(self.0, &mut json, &opts).is_ok() {
            proof {
                assert(json@ =~= text_of(self@, opts)->Ok_0);
            }
            return json;
        }
        let mut out: Vec<u8> = Vec::new();
        match parse_value(self.0) {
            Ok(b) => {
                if Self::container_to_string(b.as_slice(), &mut out, &opts).is_ok() {
                    proof {
                        assert(out@ =~= text_of(b@, opts)->Ok_0);
                    }
                    return out;
                }
            },
            Err(_) => {},
        }
        let mut null: Vec<u8> = Vec::new();
        push_null(&mut null);
        proof {
            assert(null@ =~= null_text());
        }
        null
    }

    /// The JSON text of the value, on one line.
    pub fn to_string(&self) -> (r: String)
        ensures
            r@ == lossy_text(display_bytes(self@, PrettyOpts { enabled: false, indent: 0 })),
            valid_utf8(display_bytes(self@, PrettyOpts { enabled: false, indent: 0 })) ==> r@
                == decode_utf8(display_bytes(self@, PrettyOpts { enabled: false, indent: 0 })),
    {
        let json = self.to_json_bytes(false);
        lossy_string(json.as_slice())
    }

    /// The JSON text of the value, each element on a line of its own.
    pub fn to_pretty_string(&self) -> (r: String)
        ensures
            r@ == lossy_text(display_bytes(self@, PrettyOpts { enabled: true, indent: 0 })),
            valid_utf8(display_bytes(self@, PrettyOpts { enabled: true, indent: 0 })) ==> r@
                == decode_utf8(display_bytes(self@, PrettyOpts { enabled: true, indent: 0 })),
    {
        let json = self.to_json_bytes(true);
        lossy_string(json.as_slice())
    }

    /// Whether a key exists in the value `value`, whose header is `header`.
    pub fn exists_key(value: &[u8], header: u32, key: &[u8]) -> (r: Result<bool, Error>)
        ensures
            r == exists_key_spec(value@, header, key@),
    {
        let (tag, _) = decode_header(header);
        if tag == OBJECT_CONTAINER_TAG {
            let entries = iterate_object_entries(value, header)?;
            let ghost es = entries_view(entries@);
            let mut i: usize = 0;
            while i < entries.len()
                invariant
                    i <= entries@.len(),
                    es == entries_view(entries@),
                    header_tag(header) == OBJECT_CONTAINER_TAG,
                    object_entries(value@, header_len(header)) == Ok::<Seq<RawEntry>, Error>(es),
                    forall|j: int| 0 <= j < i ==> (#[trigger] es[j]).key != key@,
                decreases entries@.len() - i,
            {
                assert(es[i as int] == entries@[i as int]@);
                if bytes_eq(entries[i].key, key) {
                    assert(has_key(es, key@));
                    return Ok(true);
                }
                i = i + 1;
            }
            assert(!has_key(es, key@));
            Ok(false)
        } else if tag == ARRAY_CONTAINER_TAG {
            let items = iterate_array(value, header)?;
            let ghost raw = items_view(items@);
            let mut i: usize = 0;
            while i < items.len()
                invariant
                    i <= items@.len(),
                    raw == items_view(items@),
                    header_tag(header) == ARRAY_CONTAINER_TAG,
                    container_items(value@, header_len(header)) == Ok::<Seq<RawItem>, Error>(raw),
                    forall|j: int|
                        0 <= j < i ==> !((#[trigger] raw[j]).jentry.type_code == STRING_TAG
                            && raw[j].data == key@),
                decreases items@.len() - i,
            {
                assert(raw[i as int] == items@[i as int]@);
                if items[i].jentry.type_code == STRING_TAG && bytes_eq(items[i].data, key) {
                    assert(has_string(raw, key@));
                    return Ok(true);
                }
                i = i + 1;
            }
            assert(!has_string(raw, key@));
            Ok(false)
        } else if tag == SCALAR_CONTAINER_TAG {
            Ok(false)
        } else {
            Err(Error::InvalidJsonb)
        }
    }

    /// Whether all of the keys exist as keys of the object or as strings of
    /// the array.
    pub fn exists_all_keys(&self, keys: &[&[u8]]) -> (r: Result<bool, Error>)
        ensures
            r == exists_all_keys_spec(self@, keys@),
    {
        let value = self.0;
        let header = read_u32(value, 0)?;
        let mut i: usize = 0;
        while i < keys.len()
            invariant
                i <= keys@.len(),
                value@ == self@,
                read_word(self@, 0) == Ok::<u32, Error>(header),
                all_keys_from(value@, header, keys@, i as nat) == all_keys_from(
                    value@,
                    header,
                    keys@,
                    0,
                ),
            decreases keys@.len() - i,
        {
            if !is_utf8(keys[i]) {
                return Ok(false);
            }
            if !Self::exists_key(value, header, keys[i])? {
                return Ok(false);
            }
            i = i + 1;
        }
        Ok(true)
    }

    /// Whether one of the keys exists as a key of the object or as a string
    /// of the array.
    pub fn exists_any_keys(&self, keys: &[&[u8]]) -> (r: Result<bool, Error>)
        ensures
            r == exists_any_keys_spec(self@, keys@),
    {
        let value = self.0;
        let header = read_u32(value, 0)?;
        let mut i: usize = 0;
        while i < keys.len()
            invariant
                i <= keys@.len(),
                value@ == self@,
                read_word(self@, 0) == Ok::<u32, Error>(header),
                any_key_from(value@, header, keys@, i as nat) == any_key_from(
                    value@,
                    header,
                    keys@,
                    0,
                ),
            decreases keys@.len() - i,
        {
            if is_utf8(keys[i]) {
                if Self::exists_key(value, header, keys[i])? {
                    return Ok(true);
                }
            }
            i = i + 1;
        }
        Ok(false)
    }
}

} // verus!
