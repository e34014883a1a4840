//! Header fields: the multimap of names and values that a request or a
//! response carries.

use crate::outside::{
    held, is_name, is_value, lowered, map_append, map_fields, map_get, map_len, map_new,
    normalize_name, normalized_name, value_is_valid, FIELD_LIMIT,
};
use vstd::prelude::*;

verus! {

/// Header fields as a list of name and value pairs. A name may occur more
/// than once.
pub type Fields = Seq<(Seq<u8>, Seq<u8>)>;

/// Every name is a header name in lower case and every value a header value.
pub open spec fn well_formed(h: Fields) -> bool {
    forall|i: int| 0 <= i < h.len() ==> is_name(#[trigger] h[i].0) && is_value(h[i].1)
}

/// The first value that `h` holds under `name`, if it holds one.
pub open spec fn first_value(h: Fields, name: Seq<u8>) -> Option<Seq<u8>>
    decreases h.len(),
{
    if h.len() == 0 {
        None
    } else if h.first().0 == name {
        Some(h.first().1)
    } else {
        first_value(h.drop_first(), name)
    }
}

/// Some field of `h` has this name.
pub open spec fn has_name(h: Fields, name: Seq<u8>) -> bool {
    exists|i: int| 0 <= i < h.len() && #[trigger] h[i].0 == name
}

/// `h` holds a field with this name and this value.
pub open spec fn carries(h: Fields, name: Seq<u8>, value: Seq<u8>) -> bool {
    exists|k: int| 0 <= k < h.len() && #[trigger] h[k] == (name, value)
}

/// The `k`-th field of `h` is the first of its name.
pub open spec fn is_first(h: Fields, k: int) -> bool {
    &&& 0 <= k < h.len()
    &&& forall|j: int| 0 <= j < k ==> #[trigger] h[j].0 != h[k].0
}

/// The first value under a name is the value of the first field that has the
/// name, and there is none where no field has the name.
pub proof fn lemma_first_value(h: Fields, name: Seq<u8>)
    ensures
        match first_value(h, name) {
            Some(v) => exists|k: int| is_first(h, k) && #[trigger] h[k] == (name, v),
            None => !has_name(h, name),
        },
    decreases h.len(),
{
    if h.len() > 0 {
        if h.first().0 == name {
            assert(is_first(h, 0) && h[0] == (name, h.first().1));
        } else {
            let rest = h.drop_first();
            lemma_first_value(rest, name);
            match first_value(rest, name) {
                Some(v) => {
                    let k = choose|k: int| is_first(rest, k) && #[trigger] rest[k] == (name, v);
                    assert forall|j: int| 0 <= j < k + 1 implies #[trigger] h[j].0 != h[k + 1].0 by {
                        if j > 0 {
                            assert(rest[j - 1] == h[j]);
                        }
                    }
                    assert(is_first(h, k + 1) && h[k + 1] == (name, v));
                },
                None => {
                    assert forall|i: int| 0 <= i < h.len() implies #[trigger] h[i].0 != name by {
                        if i > 0 {
                            assert(rest[i - 1] == h[i]);
                        }
                    }
                },
            }
        }
    }
}

/// The value of a field that is the first of its name is the first value
/// under that name.
pub proof fn lemma_first_value_at(h: Fields, k: int)
    requires
        is_first(h, k),
    ensures
        first_value(h, h[k].0) == Some(h[k].1),
{
    lemma_first_value(h, h[k].0);
    let v = first_value(h, h[k].0)->0;
    let i = choose|i: int| is_first(h, i) && #[trigger] h[i] == (h[k].0, v);
    if i < k {
        assert(h[i].0 != h[k].0);
    } else if k < i {
        assert(h[k].0 != h[i].0);
    }
}

/// The fields of `h` that have this name, in the order of `h`.
pub open spec fn under(h: Fields, name: Seq<u8>) -> Fields
    decreases h.len(),
{
    if h.len() == 0 {
        Fields::empty()
    } else if h.last().0 == name {
        under(h.drop_last(), name).push(h.last())
    } else {
        under(h.drop_last(), name)
    }
}

/// `h` with one more field: behind the last field of its name, and at the
/// end where no field has the name.
pub open spec fn joined(h: Fields, name: Seq<u8>, value: Seq<u8>) -> Fields
    decreases h.len(),
{
    if h.len() == 0 || h.last().0 == name || !has_name(h, name) {
        h.push((name, value))
    } else {
        joined(h.drop_last(), name, value).push(h.last())
    }
}

/// A field that joins the others is one more field, and the last of its
/// name; every field that was there is still there, and the fields of each
/// other name stand as they stood.
pub proof fn lemma_joined(h: Fields, name: Seq<u8>, value: Seq<u8>)
    ensures
        joined(h, name, value).len() == h.len() + 1,
        carries(joined(h, name, value), name, value),
        forall|k: int| 0 <= k < h.len() ==> joined(h, name, value).contains(#[trigger] h[k]),
        forall|k: int|
            0 <= k < joined(h, name, value).len() ==> #[trigger] joined(h, name, value)[k] == (
                name,
                value,
            ) || h.contains(joined(h, name, value)[k]),
        under(joined(h, name, value), name) == under(h, name).push((name, value)),
        forall|other: Seq<u8>|
            other != name ==> #[trigger] under(joined(h, name, value), other) == under(h, other),
    decreases h.len(),
{
    let result = joined(h, name, value);
    if h.len() == 0 || h.last().0 == name || !has_name(h, name) {
        assert(result[h.len() as int] == (name, value));
        assert forall|k: int| 0 <= k < h.len() implies result.contains(#[trigger] h[k]) by {
            assert(result[k] == h[k]);
        }
        assert forall|k: int| 0 <= k < result.len() implies #[trigger] result[k] == (name, value)
            || h.contains(result[k]) by {
            if k < h.len() {
                assert(h[k] == result[k]);
            }
        }
        assert(result.drop_last() =~= h);
    } else {
        let front = h.drop_last();
        let last = h.last();
        let inner = joined(front, name, value);
        lemma_joined(front, name, value);
        assert(result.drop_last() =~= inner);
        let i = choose|i: int| 0 <= i < inner.len() && #[trigger] inner[i] == (name, value);
        assert(result[i] == (name, value));
        assert forall|k: int| 0 <= k < h.len() implies result.contains(#[trigger] h[k]) by {
            if k < front.len() {
                assert(inner.contains(front[k]));
                let m = choose|m: int| 0 <= m < inner.len() && inner[m] == front[k];
                assert(result[m] == h[k]);
            } else {
                assert(result[result.len() - 1] == h[k]);
            }
        }
        assert forall|k: int| 0 <= k < result.len() implies #[trigger] result[k] == (name, value)
            || h.contains(result[k]) by {
            if k < inner.len() {
                if inner[k] != (name, value) {
                    let m = choose|m: int| 0 <= m < front.len() && front[m] == inner[k];
                    assert(h[m] == result[k]);
                }
            } else {
                assert(h[h.len() - 1] == result[k]);
            }
        }
        assert forall|other: Seq<u8>| other != name implies #[trigger] under(result, other)
            == under(h, other) by {
            assert(under(inner, other) == under(front, other));
        }
    }
}

/// Why a header field was refused.
#[derive(Debug, Clone, Copy, PartialEq, Eq, Structural)]
pub enum HeaderError {
    /// The name is no token, or is longer than a header name may be.
    InvalidName,
    /// The value holds a control character.
    InvalidValue,
    /// The header map takes no more fields.
    TooMany,
}

/// What adding a field to `h` gives, where the map takes it: the fields with
/// the new one joined to them, its name in lower case; or the reason why the
/// field is refused, the name being looked at before the value.
pub open spec fn appended(h: Fields, name: Seq<u8>, value: Seq<u8>) -> Result<Fields, HeaderError> {
    match normalized_name(name) {
        None => Err(HeaderError::InvalidName),
        Some(n) => if is_value(value) {
            Ok(joined(h, n, value))
        } else {
            Err(HeaderError::InvalidValue)
        },
    }
}

/// What adding a field owes. It answers as [`appended`] says, or, where
/// the header map takes no more fields, with `TooMany`; and with that only
/// for a well-formed field where there are [`FIELD_LIMIT`] fields or more. A
/// field that is refused leaves the fields as they were.
pub open spec fn append_owed(
    r: Result<(), HeaderError>,
    before: Fields,
    after: Fields,
    name: Seq<u8>,
    value: Seq<u8>,
) -> bool {
    match r {
        Ok(()) => appended(before, name, value) == Ok::<Fields, HeaderError>(after),
        Err(HeaderError::TooMany) => {
            &&& appended(before, name, value) is Ok
            &&& after == before
            &&& before.len() >= FIELD_LIMIT
        },
        Err(e) => appended(before, name, value) == Err::<Fields, HeaderError>(e) && after
            == before,
    }
}

/// Fields that were handed out, as plain byte strings.
pub open spec fn plain(fields: Seq<(Vec<u8>, Vec<u8>)>) -> Fields {
    Seq::new(fields.len(), |i: int| (fields[i].0@, fields[i].1@))
}

/// The header fields of a message, kept in a header map of the `http` crate.
/// The map keeps the values of one name together: it hands out the names in
/// the order in which they first came in, and under each name its values in
/// the order in which they came in.
#[derive(Debug)]
pub struct Headers {
    map: http::HeaderMap<http::HeaderValue>,
}

impl View for Headers {
    type V = Fields;

    closed spec fn view(&self) -> Fields {
        held(self.map)
    }
}

impl Headers {
    #[verifier::type_invariant]
    spec fn valid(self) -> bool {
        well_formed(self@)
    }

    /// No fields.
    pub fn new() -> (r: Headers)
        ensures
            r@ == Fields::empty(),
    {
        Headers { map: map_new() }
    }

    /// The number of fields, each occurrence of a name counted.
    pub fn len(&self) -> (n: usize)
        ensures
            n == self@.len(),
            well_formed(self@),
    {
        proof {
            use_type_invariant(self);
        }
        map_len(&self.map)
    }

    /// The fields, each with its name and its value, the values of one name
    /// together and in the order in which they were added.
    pub fn fields(&self) -> (fields: Vec<(Vec<u8>, Vec<u8>)>)
        ensures
            plain(fields@) == self@,
            well_formed(self@),
    {
        proof {
            use_type_invariant(self);
        }
        map_fields(&self.map)
    }

    /// Adds a field: behind the fields of its name where there are any, and
    /// as the last field otherwise. The name may be written in either case
    /// and is stored in lower case. A field that is refused leaves the fields
    /// as they were; a well-formed field is refused only where there are
    /// [`FIELD_LIMIT`] fields or more.
    pub fn append(&mut self, name: &[u8], value: &[u8]) -> (r: Result<(), HeaderError>)
        ensures
            append_owed(r, old(self)@, final(self)@, name@, value@),
    {
        proof {
            use_type_invariant(&*self);
        }
        let stored_name = match normalize_name(name) {
            Some(n) => n,
            None => {
                return Err(HeaderError::InvalidName);
            },
        };
        if !value_is_valid(value) {
            return Err(HeaderError::InvalidValue);
        }
        proof {
            assert(normalized_name(stored_name@) == Some(stored_name@)) by {
                assert(Seq::new(stored_name@.len(), |i: int| lowered(stored_name@[i]))
                    =~= stored_name@);
            }
        }
        let ghost before = self@;
        let mut map = map_new();
        core::mem::swap(&mut self.map, &mut map);
        let ok = map_append(&mut map, stored_name.as_slice(), value);
        proof {
            lemma_joined(before, stored_name@, value@);
            if ok {
                let after = held(map);
                assert forall|i: int| 0 <= i < after.len() implies is_name(#[trigger] after[i].0)
                    && is_value(after[i].1) by {
                    if after[i] != (stored_name@, value@) {
                        let k = choose|k: int| 0 <= k < before.len() && before[k] == after[i];
                        assert(is_name(before[k].0));
                    }
                }
            }
        }
        self.map = map;
        if ok {
            Ok(())
        } else {
            Err(HeaderError::TooMany)
        }
    }

    /// The first value stored under `name`, which may be written in either
    /// case. A `name` that is no header name has no value.
    pub fn get(&self, name: &[u8]) -> (r: Option<&[u8]>)
        ensures
            match normalized_name(name@) {
                Some(n) => match r {
                    Some(v) => first_value(self@, n) == Some(v@),
                    None => first_value(self@, n).is_none(),
                },
                None => r.is_none(),
            },
    {
        let key = match normalize_name(name) {
            Some(n) => n,
            None => {
                return None;
            },
        };
        proof {
            assert(Seq::new(key@.len(), |i: int| lowered(key@[i])) =~= key@);
        }
        map_get(&self.map, key.as_slice())
    }
}

} // verus!
