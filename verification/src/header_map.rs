//! What this library relies on from `http::HeaderMap`: its fields as a
//! sequence, and the few operations the framing rules use.

use vstd::prelude::*;

verus! {

#[verifier::external_type_specification]
#[verifier::external_body]
#[verifier::reject_recursive_types(T)]
pub struct ExHeaderMap<T>(::http::HeaderMap<T>);

#[verifier::external_type_specification]
#[verifier::external_body]
pub struct ExHeaderValue(::http::HeaderValue);

/// One field name of a header map with the values under it, first to last.
pub type Entry = (Seq<u8>, Seq<Seq<u8>>);

/// The entries of a header map in the order in which it walks them: each
/// name once, lower-case, with its values in the order they were added.
pub uninterp spec fn header_entries(m: ::http::HeaderMap) -> Seq<Entry>;

/// The number of entries up to which a map is sure to take one more field:
/// a map refuses to grow a table of 32768 slots, which it does not need
/// before it holds 6553 names.
pub const MAX_ENTRIES: usize = 4096;

/// A byte that may stand in a field name.
pub open spec fn is_name_byte(b: u8) -> bool {
    ||| 48 <= b <= 57
    ||| 65 <= b <= 90
    ||| 94 <= b <= 122
    ||| b == 33
    ||| 35 <= b <= 39
    ||| b == 42
    ||| b == 43
    ||| b == 45
    ||| b == 46
    ||| b == 124
    ||| b == 126
}

/// A field name: between 1 and 65535 bytes, each of them a token character.
pub open spec fn is_field_name(s: Seq<u8>) -> bool {
    &&& 1 <= s.len() <= 65535
    &&& forall|i: int| 0 <= i < s.len() ==> is_name_byte(#[trigger] s[i])
}

/// A byte that may stand in a field value: a tab, or anything from the
/// space on but the delete character.
pub open spec fn is_value_byte(b: u8) -> bool {
    (b >= 32 && b != 127) || b == 9
}

/// A field value: any number of value bytes.
pub open spec fn is_field_value(s: Seq<u8>) -> bool {
    forall|i: int| 0 <= i < s.len() ==> is_value_byte(#[trigger] s[i])
}

/// The lower-case form of an ASCII letter; any other byte is itself.
pub open spec fn lower_byte(b: u8) -> u8 {
    if 65 <= b <= 90 {
        (b + 32) as u8
    } else {
        b
    }
}

/// A name with its ASCII letters in lower case: the form a map keeps.
pub open spec fn lower(s: Seq<u8>) -> Seq<u8> {
    Seq::new(s.len(), |i: int| lower_byte(s[i]))
}

/// The index of the entry with the given name.
pub open spec fn entry_index(entries: Seq<Entry>, name: Seq<u8>) -> Option<int>
    decreases entries.len(),
{
    if entries.len() == 0 {
        None
    } else if entry_index(entries.drop_last(), name) is Some {
        entry_index(entries.drop_last(), name)
    } else if entries.last().0 == name {
        Some(entries.len() - 1)
    } else {
        None
    }
}

/// What `entry_index` gives is the first entry with the name, and it gives
/// nothing only where no entry has it.
pub proof fn lemma_entry_index(entries: Seq<Entry>, name: Seq<u8>)
    ensures
        match entry_index(entries, name) {
            Some(i) => 0 <= i < entries.len() && entries[i].0 == name && forall|j: int|
                0 <= j < i ==> (#[trigger] entries[j]).0 != name,
            None => forall|j: int| 0 <= j < entries.len() ==> (#[trigger] entries[j]).0 != name,
        },
    decreases entries.len(),
{
    if entries.len() > 0 {
        let front = entries.drop_last();
        lemma_entry_index(front, name);
        match entry_index(front, name) {
            Some(i) => {
                assert(front[i] == entries[i]);
                assert forall|j: int| 0 <= j < i implies (#[trigger] entries[j]).0 != name by {
                    assert(front[j] == entries[j]);
                }
            },
            None => {
                assert forall|j: int| 0 <= j < entries.len() - 1 implies (#[trigger] entries[j]).0
                    != name by {
                    assert(front[j] == entries[j]);
                }
            },
        }
    }
}

/// No two entries have the same name.
pub open spec fn names_distinct(entries: Seq<Entry>) -> bool {
    forall|i: int, j: int|
        0 <= i < j < entries.len() ==> (#[trigger] entries[i]).0 != (#[trigger] entries[j]).0
}

/// Every entry has a value.
pub open spec fn values_present(entries: Seq<Entry>) -> bool {
    forall|i: int| 0 <= i < entries.len() ==> (#[trigger] entries[i]).1.len() > 0
}

/// What holds of the entries of every header map: each name stands once,
/// and with at least one value.
pub open spec fn is_map(entries: Seq<Entry>) -> bool {
    names_distinct(entries) && values_present(entries)
}

/// An entry with the name, before which no entry has it, is what
/// `entry_index` gives.
pub proof fn lemma_entry_index_is(entries: Seq<Entry>, name: Seq<u8>, i: int)
    requires
        0 <= i < entries.len(),
        entries[i].0 == name,
        forall|j: int| 0 <= j < i ==> (#[trigger] entries[j]).0 != name,
    ensures
        entry_index(entries, name) == Some(i),
{
    lemma_entry_index(entries, name);
}

/// Where no entry has the name, `entry_index` gives nothing.
pub proof fn lemma_entry_index_none(entries: Seq<Entry>, name: Seq<u8>)
    requires
        forall|j: int| 0 <= j < entries.len() ==> (#[trigger] entries[j]).0 != name,
    ensures
        entry_index(entries, name) is None,
{
    lemma_entry_index(entries, name);
}

/// After a value has been set under a name, it is the first value there,
/// every other name has the first value it had, and names stay distinct.
pub proof fn lemma_inserted(entries: Seq<Entry>, name: Seq<u8>, value: Seq<u8>, other: Seq<u8>)
    ensures
        first_value(inserted(entries, name, value), name) == Some(value),
        other != name ==> first_value(inserted(entries, name, value), other) == first_value(
            entries,
            other,
        ),
        names_distinct(entries) ==> names_distinct(inserted(entries, name, value)),
        values_present(entries) ==> values_present(inserted(entries, name, value)),
        entries.len() <= inserted(entries, name, value).len() <= entries.len() + 1,
{
    let after = inserted(entries, name, value);
    lemma_entry_index(entries, name);
    lemma_entry_index(entries, other);
    match entry_index(entries, name) {
        Some(i) => {
            lemma_entry_index_is(after, name, i);
            if other != name {
                match entry_index(entries, other) {
                    Some(k) => {
                        lemma_entry_index_is(after, other, k);
                    },
                    None => {
                        lemma_entry_index_none(after, other);
                    },
                }
            }
        },
        None => {
            lemma_entry_index_is(after, name, entries.len() as int);
            if other != name {
                match entry_index(entries, other) {
                    Some(k) => {
                        lemma_entry_index_is(after, other, k);
                    },
                    None => {
                        lemma_entry_index_none(after, other);
                    },
                }
            }
        },
    }
}

/// After the first value under a name has been replaced, the new value is
/// the first there, every other name has the first value it had, and names
/// stay distinct.
pub proof fn lemma_first_replaced(
    entries: Seq<Entry>,
    name: Seq<u8>,
    value: Seq<u8>,
    other: Seq<u8>,
)
    requires
        first_value(entries, name) is Some,
        values_present(entries),
    ensures
        first_value(first_replaced(entries, name, value), name) == Some(value),
        values_present(first_replaced(entries, name, value)),
        first_replaced(entries, name, value).len() == entries.len(),
        other != name ==> first_value(first_replaced(entries, name, value), other) == first_value(
            entries,
            other,
        ),
        names_distinct(entries) ==> names_distinct(first_replaced(entries, name, value)),
{
    let after = first_replaced(entries, name, value);
    lemma_entry_index(entries, name);
    lemma_entry_index(entries, other);
    let i = entry_index(entries, name).unwrap();
    lemma_entry_index_is(after, name, i);
    if other != name {
        match entry_index(entries, other) {
            Some(k) => {
                lemma_entry_index_is(after, other, k);
            },
            None => {
                lemma_entry_index_none(after, other);
            },
        }
    }
}

/// After a name has been removed from entries with distinct names, it has
/// no value, every other name has the first value it had, and names stay
/// distinct.
pub proof fn lemma_removed(entries: Seq<Entry>, name: Seq<u8>, other: Seq<u8>)
    requires
        names_distinct(entries),
    ensures
        first_value(removed(entries, name), name) is None,
        other != name ==> first_value(removed(entries, name), other) == first_value(
            entries,
            other,
        ),
        names_distinct(removed(entries, name)),
        values_present(entries) ==> values_present(removed(entries, name)),
        removed(entries, name).len() <= entries.len(),
{
    let after = removed(entries, name);
    lemma_entry_index(entries, name);
    lemma_entry_index(entries, other);
    match entry_index(entries, name) {
        None => {},
        Some(i) => {
            let last = entries.len() - 1;
            assert forall|j: int| 0 <= j < after.len() implies (#[trigger] after[j]).0 != name by {
                if j == i {
                    assert(after[j] == entries[last]);
                } else {
                    assert(after[j] == entries[j]);
                }
            }
            lemma_entry_index_none(after, name);
            if values_present(entries) {
                assert forall|j: int| 0 <= j < after.len() implies (#[trigger] after[j]).1.len()
                    > 0 by {
                    if j == i {
                        assert(after[j] == entries[last]);
                    } else {
                        assert(after[j] == entries[j]);
                    }
                }
            }
            assert(names_distinct(after)) by {
                assert forall|a: int, b: int| 0 <= a < b < after.len() implies (
                #[trigger] after[a]).0 != (#[trigger] after[b]).0 by {
                    let pa = if a == i {
                        last
                    } else {
                        a
                    };
                    let pb = if b == i {
                        last
                    } else {
                        b
                    };
                    assert(after[a] == entries[pa]);
                    assert(after[b] == entries[pb]);
                    if pa < pb {
                        assert(entries[pa].0 != entries[pb].0);
                    } else {
                        assert(entries[pb].0 != entries[pa].0);
                    }
                }
            }
            if other != name {
                match entry_index(entries, other) {
                    None => {
                        assert forall|j: int| 0 <= j < after.len() implies (#[trigger] after[j]).0
                            != other by {
                            if j == i {
                                assert(after[j] == entries[last]);
                            } else {
                                assert(after[j] == entries[j]);
                            }
                        }
                        lemma_entry_index_none(after, other);
                    },
                    Some(k) => {
                        let moved = if k == last {
                            i
                        } else {
                            k
                        };
                        assert(after[moved] == entries[k]);
                        assert forall|j: int| 0 <= j < moved implies (#[trigger] after[j]).0
                            != other by {
                            let pj = if j == i {
                                last
                            } else {
                                j
                            };
                            assert(after[j] == entries[pj]);
                            if pj < k {
                                assert(entries[pj].0 != entries[k].0);
                            } else if k < pj {
                                assert(entries[k].0 != entries[pj].0);
                            }
                        }
                        lemma_entry_index_is(after, other, moved);
                    },
                }
            }
        },
    }
}

/// The first value under the given name.
pub open spec fn first_value(entries: Seq<Entry>, name: Seq<u8>) -> Option<Seq<u8>> {
    match entry_index(entries, name) {
        Some(i) => Some(entries[i].1[0]),
        None => None,
    }
}

/// The entries after one value has been set under a name, in place of all
/// its values: a new name goes to the end, a known one keeps its place.
pub open spec fn inserted(entries: Seq<Entry>, name: Seq<u8>, value: Seq<u8>) -> Seq<Entry> {
    match entry_index(entries, name) {
        Some(i) => entries.update(i, (name, seq![value])),
        None => entries.push((name, seq![value])),
    }
}

/// The entries after one value has been added under a name: behind the
/// values it has, or as a new entry at the end.
pub open spec fn appended(entries: Seq<Entry>, name: Seq<u8>, value: Seq<u8>) -> Seq<Entry> {
    match entry_index(entries, name) {
        Some(i) => entries.update(i, (name, entries[i].1.push(value))),
        None => entries.push((name, seq![value])),
    }
}

/// The entries after a name has been removed with all its values: the last
/// entry takes the freed place.
pub open spec fn removed(entries: Seq<Entry>, name: Seq<u8>) -> Seq<Entry> {
    match entry_index(entries, name) {
        Some(i) => if i == entries.len() - 1 {
            entries.drop_last()
        } else {
            entries.update(i, entries.last()).drop_last()
        },
        None => entries,
    }
}

/// The entries after the first value under a name has been replaced.
pub open spec fn first_replaced(entries: Seq<Entry>, name: Seq<u8>, value: Seq<u8>) -> Seq<Entry> {
    match entry_index(entries, name) {
        Some(i) => entries.update(i, (name, entries[i].1.update(0, value))),
        None => entries,
    }
}

/// The fields of a map one by one, as it walks them: entry by entry, the
/// values of an entry in their order, each with the entry's name.
pub open spec fn fields(entries: Seq<Entry>) -> Seq<(Seq<u8>, Seq<u8>)>
    decreases entries.len(),
{
    if entries.len() == 0 {
        seq![]
    } else {
        fields(entries.drop_last()) + Seq::new(
            entries.last().1.len(),
            |j: int| (entries.last().0, entries.last().1[j]),
        )
    }
}

/// The fields of an exec list, as sequences.
pub open spec fn fields_view(v: Seq<(Vec<u8>, Vec<u8>)>) -> Seq<(Seq<u8>, Seq<u8>)> {
    Seq::new(v.len(), |i: int| (v[i].0@, v[i].1@))
}

/// `HeaderMap::new` makes a map without entries.
pub assume_specification[ ::http::HeaderMap::new ]() -> (m: ::http::HeaderMap)
    ensures
        header_entries(m) == Seq::<Entry>::empty(),
;

/// `HeaderMap::keys_len`: the number of names in the map.
#[verifier::external_body]
pub(crate) fn header_count(headers: &::http::HeaderMap) -> (n: usize)
    ensures
        n == header_entries(*headers).len(),
{
    headers.keys_len()
}

/// Tells whether the map is sure to take one more name and to stay within
/// [`MAX_ENTRIES`]: it holds fewer.
pub fn has_room(headers: &::http::HeaderMap) -> (r: bool)
    ensures
        r == (header_entries(*headers).len() < MAX_ENTRIES),
{
    header_count(headers) < MAX_ENTRIES
}

/// Tells whether the map is sure to take `more` names and to stay within
/// [`MAX_ENTRIES`].
pub fn has_room_for(headers: &::http::HeaderMap, more: usize) -> (r: bool)
    ensures
        r == (header_entries(*headers).len() + more <= MAX_ENTRIES),
{
    let n = header_count(headers);
    n <= MAX_ENTRIES && more <= MAX_ENTRIES - n
}

/// `HeaderMap::get` with a name made by `HeaderName::from_bytes`: the first
/// value under that name, which like every value of a map holds value bytes
/// only.
#[verifier::external_body]
pub(crate) fn header_get(headers: &::http::HeaderMap, name: &[u8]) -> (r: Option<Vec<u8>>)
    requires
        is_field_name(name@),
    ensures
        match first_value(header_entries(*headers), lower(name@)) {
            Some(v) => r matches Some(got) && got@ == v && is_field_value(got@),
            None => r is None,
        },
{
    let key = ::http::HeaderName::from_bytes(name).expect("a field name");
    match headers.get(key) {
        Some(v) => Some(v.as_bytes().to_vec()),
        None => None,
    }
}

/// `HeaderMap::try_insert` with a name made by `HeaderName::from_bytes` and
/// a value made by `HeaderValue::from_bytes`. Where the map takes the
/// field, the value stands alone under the name. Where the map refuses,
/// because its table cannot grow any more, it keeps its entries; a map of
/// at most [`MAX_ENTRIES`] names does not refuse. The map it was called on
/// was, as every map is, a map in the sense of [`is_map`].
#[verifier::external_body]
pub(crate) fn header_insert(headers: &mut ::http::HeaderMap, name: &[u8], value: &[u8]) -> (taken:
    bool)
    requires
        is_field_name(name@),
        is_field_value(value@),
    ensures
        taken ==> header_entries(*final(headers)) == inserted(
            header_entries(*old(headers)),
            lower(name@),
            value@,
        ),
        !taken ==> header_entries(*final(headers)) == header_entries(*old(headers)),
        header_entries(*old(headers)).len() <= MAX_ENTRIES ==> taken,
        is_map(header_entries(*old(headers))),
{
    let key = ::http::HeaderName::from_bytes(name).expect("a field name");
    let val = ::http::HeaderValue::from_bytes(value).expect("a field value");
    headers.try_insert(key, val).is_ok()
}

/// `HeaderMap::try_append` with a name made by `HeaderName::from_bytes` and
/// a value made by `HeaderValue::from_bytes`. Where the map takes the
/// field, the value is added under the name. Where the map refuses,
/// because its table cannot grow any more, it keeps its entries; a map of
/// at most [`MAX_ENTRIES`] names does not refuse. The map it was called on
/// was a map in the sense of [`is_map`].
#[verifier::external_body]
pub(crate) fn header_append(headers: &mut ::http::HeaderMap, name: &[u8], value: &[u8]) -> (taken:
    bool)
    requires
        is_field_name(name@),
        is_field_value(value@),
    ensures
        taken ==> header_entries(*final(headers)) == appended(
            header_entries(*old(headers)),
            lower(name@),
            value@,
        ),
        !taken ==> header_entries(*final(headers)) == header_entries(*old(headers)),
        header_entries(*old(headers)).len() <= MAX_ENTRIES ==> taken,
        is_map(header_entries(*old(headers))),
{
    let key = ::http::HeaderName::from_bytes(name).expect("a field name");
    let val = ::http::HeaderValue::from_bytes(value).expect("a field value");
    headers.try_append(key, val).is_ok()
}

/// `HeaderMap::remove` with a name made by `HeaderName::from_bytes`: the
/// name leaves with all its values, and the map's last entry takes its
/// place. The map it was called on was a map in the sense of [`is_map`].
#[verifier::external_body]
pub(crate) fn header_remove(headers: &mut ::http::HeaderMap, name: &[u8])
    requires
        is_field_name(name@),
    ensures
        header_entries(*final(headers)) == removed(header_entries(*old(headers)), lower(name@)),
        is_map(header_entries(*old(headers))),
{
    let key = ::http::HeaderName::from_bytes(name).expect("a field name");
    headers.remove(key);
}

/// `HeaderMap::get_mut` with a name made by `HeaderName::from_bytes` that
/// the map holds, and an assignment of a value made by
/// `HeaderValue::from_bytes` through it: the first value under the name is
/// replaced. The map it was called on was a map in the sense of
/// [`is_map`].
#[verifier::external_body]
pub(crate) fn header_replace_first(headers: &mut ::http::HeaderMap, name: &[u8], value: &[u8])
    requires
        is_field_name(name@),
        is_field_value(value@),
        first_value(header_entries(*old(headers)), lower(name@)) is Some,
    ensures
        header_entries(*final(headers)) == first_replaced(
            header_entries(*old(headers)),
            lower(name@),
            value@,
        ),
        is_map(header_entries(*old(headers))),
{
    let key = ::http::HeaderName::from_bytes(name).expect("a field name");
    let val = ::http::HeaderValue::from_bytes(value).expect("a field value");
    *headers.get_mut(key).expect("a name of the map") = val;
}

/// `HeaderMap::iter`: the fields in the map's own order, each as the bytes
/// of its name and of its value.
#[verifier::external_body]
pub(crate) fn header_fields(headers: &::http::HeaderMap) -> (out: Vec<(Vec<u8>, Vec<u8>)>)
    ensures
        fields_view(out@) == fields(header_entries(*headers)),
{
    let mut out = Vec::new();
    for (name, value) in headers.iter() {
        out.push((name.as_str().as_bytes().to_vec(), value.as_bytes().to_vec()));
    }
    out
}

} // verus!
