//! The framing headers: `Content-Length` and the `chunked` token of
//! `Transfer-Encoding`.

use vstd::prelude::*;
use crate::header_map::{
    first_replaced, first_value, header_entries, header_get, header_insert, header_remove,
    header_replace_first, inserted, is_field_name, is_field_value, is_map, is_value_byte,
    lemma_first_replaced, lemma_inserted, lemma_removed, lower, removed, Entry, MAX_ENTRIES,
};
use crate::number::{parse_number, parse_unsigned};

verus! {

/// The name `content-length`.
pub open spec fn content_length_name() -> Seq<u8> {
    seq![99u8, 111u8, 110u8, 116u8, 101u8, 110u8, 116u8, 45u8, 108u8, 101u8, 110u8, 103u8, 116u8, 104u8]
}

/// The name `transfer-encoding`.
pub open spec fn transfer_encoding_name() -> Seq<u8> {
    seq![
        116u8, 114u8, 97u8, 110u8, 115u8, 102u8, 101u8, 114u8, 45u8, 101u8, 110u8, 99u8, 111u8,
        100u8, 105u8, 110u8, 103u8,
    ]
}

/// The token `chunked`.
pub open spec fn chunked() -> Seq<u8> {
    seq![99u8, 104u8, 117u8, 110u8, 107u8, 101u8, 100u8]
}

/// The name `content-length`, as bytes.
pub fn content_length() -> (name: [u8; 14])
    ensures
        name@ == content_length_name(),
        is_field_name(name@),
        lower(name@) == name@,
{
    let name: [u8; 14] = [99, 111, 110, 116, 101, 110, 116, 45, 108, 101, 110, 103, 116, 104];
    assert(name@ =~= content_length_name());
    assert(lower(name@) =~= name@);
    name
}

/// The name `transfer-encoding`, as bytes.
pub fn transfer_encoding() -> (name: [u8; 17])
    ensures
        name@ == transfer_encoding_name(),
        is_field_name(name@),
        lower(name@) == name@,
{
    let name: [u8; 17] = [
        116, 114, 97, 110, 115, 102, 101, 114, 45, 101, 110, 99, 111, 100, 105, 110, 103,
    ];
    assert(name@ =~= transfer_encoding_name());
    assert(lower(name@) =~= name@);
    name
}

/// ASCII white space: tab, line feed, form feed, carriage return, space.
pub open spec fn is_space(b: u8) -> bool {
    b == 9 || b == 10 || b == 12 || b == 13 || b == 32
}

/// `s` without the white space at its start.
pub open spec fn trim_start(s: Seq<u8>) -> Seq<u8>
    decreases s.len(),
{
    if s.len() > 0 && is_space(s[0]) {
        trim_start(s.skip(1))
    } else {
        s
    }
}

/// `s` without the white space at its end.
pub open spec fn trim_end(s: Seq<u8>) -> Seq<u8>
    decreases s.len(),
{
    if s.len() > 0 && is_space(s.last()) {
        trim_end(s.drop_last())
    } else {
        s
    }
}

/// `s` without the white space around it.
pub open spec fn trim(s: Seq<u8>) -> Seq<u8> {
    trim_end(trim_start(s))
}

/// The parts of `s` between its commas, first to last. There is always one
/// part more than there are commas; a part may be empty.
pub open spec fn tokens(s: Seq<u8>) -> Seq<Seq<u8>>
    decreases s.len(),
{
    if s.len() == 0 {
        seq![Seq::<u8>::empty()]
    } else if s.last() == 44 {
        tokens(s.drop_last()).push(Seq::<u8>::empty())
    } else {
        let t = tokens(s.drop_last());
        t.drop_last().push(t.last().push(s.last()))
    }
}

/// A part of a `Transfer-Encoding` value that names the chunked coding.
pub open spec fn is_chunked_token(t: Seq<u8>) -> bool {
    trim(t) == chunked()
}

/// Some part of the value names the chunked coding.
pub open spec fn has_chunked(value: Seq<u8>) -> bool {
    exists|i: int| 0 <= i < tokens(value).len() && is_chunked_token(#[trigger] tokens(value)[i])
}

/// The parts that do not name the chunked coding, in their order.
pub open spec fn kept(parts: Seq<Seq<u8>>) -> Seq<Seq<u8>>
    decreases parts.len(),
{
    if parts.len() == 0 {
        seq![]
    } else if is_chunked_token(parts.last()) {
        kept(parts.drop_last())
    } else {
        kept(parts.drop_last()).push(parts.last())
    }
}

/// The parts with a comma between each two.
pub open spec fn join(parts: Seq<Seq<u8>>) -> Seq<u8>
    decreases parts.len(),
{
    if parts.len() == 0 {
        seq![]
    } else if parts.len() == 1 {
        parts[0]
    } else {
        join(parts.drop_last()) + seq![44u8] + parts.last()
    }
}

/// What `Content-Length` says of a body.
#[derive(Clone, Copy, Debug, PartialEq, Eq, Structural)]
pub enum ContentLen {
    /// The header gives this length.
    Num(usize),
    /// There is no such header.
    Missing,
    /// The header's first value is not a length.
    Invalid,
}

/// The body length that a header map announces: the decimal number in the
/// first value of `content-length`.
pub open spec fn content_len_of(entries: Seq<Entry>) -> ContentLen {
    match first_value(entries, content_length_name()) {
        Some(v) => match parse_number(v, 10) {
            Some(n) => ContentLen::Num(n),
            None => ContentLen::Invalid,
        },
        None => ContentLen::Missing,
    }
}

/// The first value of `transfer-encoding` names the chunked coding.
pub open spec fn chunked_in(entries: Seq<Entry>) -> bool {
    match first_value(entries, transfer_encoding_name()) {
        Some(v) => has_chunked(v),
        None => false,
    }
}

/// The entries without the chunked coding: the first value of
/// `transfer-encoding` loses the parts that name it, and the header leaves
/// when no part stays. A map that does not name the coding stays as it is.
pub open spec fn chunked_removed(entries: Seq<Entry>) -> Seq<Entry> {
    match first_value(entries, transfer_encoding_name()) {
        Some(v) => if !has_chunked(v) {
            entries
        } else if kept(tokens(v)).len() == 0 {
            removed(entries, transfer_encoding_name())
        } else {
            first_replaced(entries, transfer_encoding_name(), join(kept(tokens(v))))
        },
        None => entries,
    }
}

/// The entries with the chunked coding: a map without `transfer-encoding`
/// gets the header, a first value that is blank becomes `chunked`, any other
/// that does not name the coding gets `,chunked` behind it.
pub open spec fn chunked_inserted(entries: Seq<Entry>) -> Seq<Entry> {
    match first_value(entries, transfer_encoding_name()) {
        Some(v) => if has_chunked(v) {
            entries
        } else if trim(v).len() == 0 {
            first_replaced(entries, transfer_encoding_name(), chunked())
        } else {
            first_replaced(entries, transfer_encoding_name(), v + seq![44u8] + chunked())
        },
        None => inserted(entries, transfer_encoding_name(), chunked()),
    }
}

/// The parts of a value as index ranges into it.
pub open spec fn ranges_view(s: Seq<u8>, ranges: Seq<(usize, usize)>) -> Seq<Seq<u8>> {
    Seq::new(ranges.len(), |i: int| s.subrange(ranges[i].0 as int, ranges[i].1 as int))
}

/// Every part of a value of value bytes is made of value bytes.
pub proof fn lemma_tokens_value_bytes(s: Seq<u8>)
    requires
        is_field_value(s),
    ensures
        forall|i: int| 0 <= i < tokens(s).len() ==> is_field_value(#[trigger] tokens(s)[i]),
        tokens(s).len() > 0,
    decreases s.len(),
{
    if s.len() == 0 {
    } else {
        lemma_tokens_value_bytes(s.drop_last());
        let t = tokens(s.drop_last());
        if s.last() != 44 {
            let longer = t.last().push(s.last());
            assert forall|i: int| 0 <= i < tokens(s).len() implies is_field_value(
                #[trigger] tokens(s)[i],
            ) by {
                if i < t.len() - 1 {
                    assert(tokens(s)[i] == t[i]);
                } else {
                    assert(tokens(s)[i] == longer);
                    assert forall|j: int| 0 <= j < longer.len() implies is_value_byte(
                        #[trigger] longer[j],
                    ) by {
                        if j < t.last().len() {
                            assert(longer[j] == t.last()[j]);
                        }
                    }
                }
            }
        } else {
            assert forall|i: int| 0 <= i < tokens(s).len() implies is_field_value(
                #[trigger] tokens(s)[i],
            ) by {
                if i < t.len() {
                    assert(tokens(s)[i] == t[i]);
                }
            }
        }
    }
}

/// The parts of a value, joined by commas, are the value.
pub proof fn lemma_join_tokens(s: Seq<u8>)
    ensures
        join(tokens(s)) == s,
        tokens(s).len() > 0,
    decreases s.len(),
{
    if s.len() == 0 {
        assert(join(tokens(s)) =~= s);
    } else {
        lemma_join_tokens(s.drop_last());
        let t = tokens(s.drop_last());
        if s.last() == 44 {
            let u = t.push(Seq::<u8>::empty());
            assert(u.drop_last() =~= t);
            assert(join(u) =~= s);
        } else {
            let u = t.drop_last().push(t.last().push(s.last()));
            assert(u.drop_last() =~= t.drop_last());
            if t.len() == 1 {
                assert(join(t) == t[0]);
                assert(u.len() == 1);
                assert(t.last() == t[0]);
                assert(t[0] == s.drop_last());
                assert(u[0] == t.last().push(s.last()));
                assert(s =~= s.drop_last().push(s.last()));
                assert(join(u) == u[0]);
                assert(join(u) =~= s);
            } else {
                assert(join(t) == join(t.drop_last()) + seq![44u8] + t.last());
                assert(u.last() == t.last().push(s.last()));
                assert(join(u) == join(u.drop_last()) + seq![44u8] + u.last());
                assert(s =~= s.drop_last().push(s.last()));
                assert(join(u) =~= s.drop_last().push(s.last()));
            }
        }
    }
}

/// The range of `v[a..b]` that is left when the white space around it is
/// taken away.
pub fn trim_range(v: &[u8], a: usize, b: usize) -> (r: (usize, usize))
    requires
        a <= b <= v@.len(),
    ensures
        a <= r.0 <= r.1 <= b,
        v@.subrange(r.0 as int, r.1 as int) == trim(v@.subrange(a as int, b as int)),
{
    let mut lo: usize = a;
    while lo < b && is_space_byte(v[lo])
        invariant
            a <= lo <= b <= v@.len(),
            trim_start(v@.subrange(a as int, b as int)) == trim_start(
                v@.subrange(lo as int, b as int),
            ),
        decreases b - lo,
    {
        assert(v@.subrange(lo as int, b as int).skip(1) =~= v@.subrange(lo + 1, b as int));
        lo = lo + 1;
    }
    assert(trim_start(v@.subrange(a as int, b as int)) == v@.subrange(lo as int, b as int));
    let mut hi: usize = b;
    while lo < hi && is_space_byte(v[hi - 1])
        invariant
            lo <= hi <= b <= v@.len(),
            trim_end(v@.subrange(lo as int, b as int)) == trim_end(
                v@.subrange(lo as int, hi as int),
            ),
        decreases hi - lo,
    {
        assert(v@.subrange(lo as int, hi as int).drop_last() =~= v@.subrange(
            lo as int,
            hi - 1,
        ));
        hi = hi - 1;
    }
    (lo, hi)
}

/// Tells whether a byte is ASCII white space.
pub fn is_space_byte(b: u8) -> (r: bool)
    ensures
        r == is_space(b),
{
    b == 9 || b == 10 || b == 12 || b == 13 || b == 32
}

/// Tells whether `v[a..b]` names the chunked coding.
pub fn is_chunked_range(v: &[u8], a: usize, b: usize) -> (r: bool)
    requires
        a <= b <= v@.len(),
    ensures
        r == is_chunked_token(v@.subrange(a as int, b as int)),
{
    let (lo, hi) = trim_range(v, a, b);
    let ghost t = v@.subrange(lo as int, hi as int);
    if hi - lo != 7 {
        assert(chunked().len() == 7);
        return false;
    }
    let r = v[lo] == 99 && v[lo + 1] == 104 && v[lo + 2] == 117 && v[lo + 3] == 110 && v[lo + 4]
        == 107 && v[lo + 5] == 101 && v[lo + 6] == 100;
    proof {
        if r {
            assert(t =~= chunked());
        } else {
            assert(t[0] == v@[lo as int]);
            assert(t[1] == v@[lo + 1]);
            assert(t[2] == v@[lo + 2]);
            assert(t[3] == v@[lo + 3]);
            assert(t[4] == v@[lo + 4]);
            assert(t[5] == v@[lo + 5]);
            assert(t[6] == v@[lo + 6]);
        }
    }
    r
}

/// The parts of a value between its commas, as index ranges.
pub fn split_commas(v: &[u8]) -> (ranges: Vec<(usize, usize)>)
    ensures
        ranges_view(v@, ranges@) == tokens(v@),
        forall|i: int| 0 <= i < ranges@.len() ==> (#[trigger] ranges@[i]).0 <= ranges@[i].1 <= v@.len(),
{
    let mut ranges: Vec<(usize, usize)> = Vec::new();
    let mut start: usize = 0;
    let mut i: usize = 0;
    assert(v@.take(0) =~= Seq::<u8>::empty());
    assert(ranges_view(v@, ranges@).push(v@.subrange(0, 0)) =~= tokens(v@.take(0)));
    while i < v.len()
        invariant
            start <= i <= v@.len(),
            forall|k: int| 0 <= k < ranges@.len() ==> (#[trigger] ranges@[k]).0 <= ranges@[k].1 <= v@.len(),
            tokens(v@.take(i as int)) == ranges_view(v@, ranges@).push(
                v@.subrange(start as int, i as int),
            ),
        decreases v.len() - i,
    {
        let ghost before = v@.take(i as int);
        let ghost after = v@.take(i + 1);
        let ghost done = ranges_view(v@, ranges@);
        assert(after.drop_last() =~= before);
        assert(after.last() == v@[i as int]);
        if v[i] == 44 {
            ranges.push((start, i));
            start = i + 1;
            assert(ranges_view(v@, ranges@) =~= done.push(v@.subrange(ranges@.last().0 as int, i as int)));
            assert(v@.subrange(start as int, i + 1) =~= Seq::<u8>::empty());
        } else {
            let ghost t = tokens(before);
            assert(t.drop_last() =~= done);
            assert(t.last().push(v@[i as int]) =~= v@.subrange(start as int, i + 1));
        }
        i = i + 1;
    }
    let ghost done = ranges_view(v@, ranges@);
    ranges.push((start, i));
    assert(v@.take(i as int) =~= v@);
    assert(ranges_view(v@, ranges@) =~= done.push(v@.subrange(start as int, i as int)));
    ranges
}

/// Tells whether a `Transfer-Encoding` value names the chunked coding.
pub fn value_has_chunked(v: &[u8]) -> (r: bool)
    ensures
        r == has_chunked(v@),
{
    let ranges = split_commas(v);
    let mut k: usize = 0;
    while k < ranges.len()
        invariant
            k <= ranges@.len(),
            ranges_view(v@, ranges@) == tokens(v@),
            forall|i: int| 0 <= i < ranges@.len() ==> (#[trigger] ranges@[i]).0 <= ranges@[i].1 <= v@.len(),
            forall|i: int| 0 <= i < k ==> !is_chunked_token(#[trigger] tokens(v@)[i]),
        decreases ranges.len() - k,
    {
        let (a, b) = ranges[k];
        assert(ranges_view(v@, ranges@)[k as int] == v@.subrange(a as int, b as int));
        if is_chunked_range(v, a, b) {
            assert(is_chunked_token(tokens(v@)[k as int]));
            return true;
        }
        k = k + 1;
    }
    false
}

/// The value without the parts that name the chunked coding, or nothing
/// when no part stays.
pub fn value_without_chunked(v: &[u8]) -> (r: Option<Vec<u8>>)
    ensures
        match r {
            Some(out) => kept(tokens(v@)).len() > 0 && out@ == join(kept(tokens(v@))),
            None => kept(tokens(v@)).len() == 0,
        },
{
    let ranges = split_commas(v);
    let mut out: Vec<u8> = Vec::new();
    let mut any: bool = false;
    let mut k: usize = 0;
    assert(tokens(v@).take(0) =~= Seq::<Seq<u8>>::empty());
    while k < ranges.len()
        invariant
            k <= ranges@.len(),
            ranges_view(v@, ranges@) == tokens(v@),
            forall|i: int| 0 <= i < ranges@.len() ==> (#[trigger] ranges@[i]).0 <= ranges@[i].1 <= v@.len(),
            any == (kept(tokens(v@).take(k as int)).len() > 0),
            out@ == join(kept(tokens(v@).take(k as int))),
        decreases ranges.len() - k,
    {
        let (a, b) = ranges[k];
        let ghost part = v@.subrange(a as int, b as int);
        let ghost before = tokens(v@).take(k as int);
        let ghost after = tokens(v@).take(k + 1);
        assert(ranges_view(v@, ranges@)[k as int] == part);
        assert(after.drop_last() =~= before);
        assert(after.last() == part);
        if !is_chunked_range(v, a, b) {
            let ghost kb = kept(before);
            assert(kept(after) == kb.push(part));
            assert(kept(after).drop_last() =~= kb);
            if any {
                out.push(44);
            }
            let mut j: usize = a;
            let ghost base = out@;
            while j < b
                invariant
                    a <= j <= b <= v@.len(),
                    out@ == base + v@.subrange(a as int, j as int),
                decreases b - j,
            {
                out.push(v[j]);
                assert(out@ =~= base + v@.subrange(a as int, j + 1));
                j = j + 1;
            }
            assert(out@ =~= join(kept(after)));
            any = true;
        }
        k = k + 1;
    }
    assert(tokens(v@).take(k as int) =~= tokens(v@));
    if any {
        Some(out)
    } else {
        None
    }
}

/// Reads the body length that the headers announce.
pub fn parse_content_len(headers: &::http::HeaderMap) -> (r: ContentLen)
    ensures
        r == content_len_of(header_entries(*headers)),
{
    let name = content_length();
    match header_get(headers, name.as_slice()) {
        Some(v) => match parse_unsigned(v.as_slice(), 10) {
            Some(n) => ContentLen::Num(n),
            None => ContentLen::Invalid,
        },
        None => ContentLen::Missing,
    }
}

/// Tells whether the headers name the chunked coding.
pub fn has_chunked_encoding(headers: &::http::HeaderMap) -> (r: bool)
    ensures
        r == chunked_in(header_entries(*headers)),
{
    let name = transfer_encoding();
    match header_get(headers, name.as_slice()) {
        Some(v) => value_has_chunked(v.as_slice()),
        None => false,
    }
}

/// Takes the chunked coding out of the headers.
pub fn remove_chunked_encoding(headers: &mut ::http::HeaderMap)
    ensures
        header_entries(*final(headers)) == chunked_removed(header_entries(*old(headers))),
{
    let name = transfer_encoding();
    let value = match header_get(headers, name.as_slice()) {
        Some(v) => v,
        None => {
            return ;
        },
    };
    if !value_has_chunked(value.as_slice()) {
        return ;
    }
    match value_without_chunked(value.as_slice()) {
        None => {
            header_remove(headers, name.as_slice());
        },
        Some(rest) => {
            proof {
                lemma_tokens_value_bytes(value@);
                lemma_kept_join_value_bytes(tokens(value@));
            }
            header_replace_first(headers, name.as_slice(), rest.as_slice());
        },
    }
}

/// Parts made of value bytes stay so when some are dropped and the rest is
/// joined by commas.
pub proof fn lemma_kept_join_value_bytes(parts: Seq<Seq<u8>>)
    requires
        forall|i: int| 0 <= i < parts.len() ==> is_field_value(#[trigger] parts[i]),
    ensures
        is_field_value(join(kept(parts))),
        kept(parts).len() > 0 ==> is_field_value(kept(parts).last()),
    decreases parts.len(),
{
    if parts.len() > 0 {
        let front = parts.drop_last();
        assert forall|i: int| 0 <= i < front.len() implies is_field_value(#[trigger] front[i]) by {
            assert(front[i] == parts[i]);
        }
        lemma_kept_join_value_bytes(front);
        if !is_chunked_token(parts.last()) {
            let k = kept(parts);
            assert(k.drop_last() =~= kept(front));
            assert(k.last() == parts.last());
            assert(is_field_value(parts.last()));
            let joined = join(k);
            if k.len() > 1 {
                let head = join(kept(front));
                assert(joined == head + seq![44u8] + parts.last());
                assert forall|i: int| 0 <= i < joined.len() implies is_value_byte(
                    #[trigger] joined[i],
                ) by {
                    if i < head.len() {
                        assert(joined[i] == head[i]);
                    } else if i == head.len() {
                        assert(joined[i] == 44);
                    } else {
                        assert(joined[i] == parts.last()[i - head.len() - 1]);
                    }
                }
            }
        }
    }
}

/// `s` holds no comma.
pub open spec fn comma_free(s: Seq<u8>) -> bool {
    forall|i: int| 0 <= i < s.len() ==> #[trigger] s[i] != 44
}

/// A value without a comma is its own single part.
pub proof fn lemma_tokens_single(s: Seq<u8>)
    requires
        comma_free(s),
    ensures
        tokens(s) == seq![s],
    decreases s.len(),
{
    if s.len() == 0 {
        assert(s =~= Seq::<u8>::empty());
        assert(tokens(s) =~= seq![s]);
    } else {
        let front = s.drop_last();
        assert(comma_free(front)) by {
            assert forall|i: int| 0 <= i < front.len() implies #[trigger] front[i] != 44 by {
                assert(front[i] == s[i]);
            }
        }
        lemma_tokens_single(front);
        assert(s[s.len() - 1] != 44);
        assert(front.push(s.last()) =~= s);
        let t = tokens(front);
        assert(t.last() == front);
        assert(t.drop_last() =~= Seq::<Seq<u8>>::empty());
        assert(tokens(s) == t.drop_last().push(t.last().push(s.last())));
        assert(tokens(s) =~= seq![s]);
    }
}

/// Behind a value and a comma, a part without a comma is one more part.
pub proof fn lemma_tokens_push(a: Seq<u8>, b: Seq<u8>)
    requires
        comma_free(b),
    ensures
        tokens(a + seq![44u8] + b) == tokens(a).push(b),
    decreases b.len(),
{
    let whole = a + seq![44u8] + b;
    if b.len() == 0 {
        assert(b =~= Seq::<u8>::empty());
        assert(whole.drop_last() =~= a);
        assert(whole.last() == 44);
        assert(tokens(whole) =~= tokens(a).push(b));
    } else {
        let front = b.drop_last();
        assert(comma_free(front)) by {
            assert forall|i: int| 0 <= i < front.len() implies #[trigger] front[i] != 44 by {
                assert(front[i] == b[i]);
            }
        }
        lemma_tokens_push(a, front);
        assert(whole.drop_last() =~= a + seq![44u8] + front);
        assert(b[b.len() - 1] != 44);
        assert(whole.last() == b[b.len() - 1]);
        assert(front.push(b.last()) =~= b);
        let t = tokens(whole.drop_last());
        assert(t == tokens(a).push(front));
        assert(t.last() == front);
        assert(t.drop_last() =~= tokens(a));
        assert(tokens(whole) == t.drop_last().push(t.last().push(whole.last())));
        assert(tokens(whole) =~= tokens(a).push(b));
    }
}

/// The parts of a value hold no comma.
pub proof fn lemma_tokens_comma_free(s: Seq<u8>)
    ensures
        forall|i: int| 0 <= i < tokens(s).len() ==> comma_free(#[trigger] tokens(s)[i]),
        tokens(s).len() > 0,
    decreases s.len(),
{
    if s.len() > 0 {
        lemma_tokens_comma_free(s.drop_last());
        let t = tokens(s.drop_last());
        if s.last() != 44 {
            let longer = t.last().push(s.last());
            assert forall|i: int| 0 <= i < tokens(s).len() implies comma_free(
                #[trigger] tokens(s)[i],
            ) by {
                if i < t.len() - 1 {
                    assert(tokens(s)[i] == t[i]);
                } else {
                    assert(tokens(s)[i] == longer);
                    assert forall|j: int| 0 <= j < longer.len() implies #[trigger] longer[j]
                        != 44 by {
                        if j < t.last().len() {
                            assert(longer[j] == t.last()[j]);
                        }
                    }
                }
            }
        } else {
            assert forall|i: int| 0 <= i < tokens(s).len() implies comma_free(
                #[trigger] tokens(s)[i],
            ) by {
                if i < t.len() {
                    assert(tokens(s)[i] == t[i]);
                }
            }
        }
    }
}

/// Parts without commas, joined by commas, are the parts of what they make.
pub proof fn lemma_tokens_join(parts: Seq<Seq<u8>>)
    requires
        parts.len() > 0,
        forall|i: int| 0 <= i < parts.len() ==> comma_free(#[trigger] parts[i]),
    ensures
        tokens(join(parts)) == parts,
    decreases parts.len(),
{
    if parts.len() == 1 {
        lemma_tokens_single(parts[0]);
        assert(seq![parts[0]] =~= parts);
    } else {
        let front = parts.drop_last();
        assert forall|i: int| 0 <= i < front.len() implies comma_free(#[trigger] front[i]) by {
            assert(front[i] == parts[i]);
        }
        lemma_tokens_join(front);
        assert(comma_free(parts.last())) by {
            assert(parts.last() == parts[parts.len() - 1]);
        }
        lemma_tokens_push(join(front), parts.last());
        assert(front.push(parts.last()) =~= parts);
    }
}

/// The parts that are kept are parts that were there and that do not name
/// the chunked coding.
pub proof fn lemma_kept(parts: Seq<Seq<u8>>)
    ensures
        forall|i: int|
            0 <= i < kept(parts).len() ==> !is_chunked_token(#[trigger] kept(parts)[i]) && exists|
                j: int,
            |
                0 <= j < parts.len() && parts[j] == kept(parts)[i],
    decreases parts.len(),
{
    if parts.len() > 0 {
        let front = parts.drop_last();
        lemma_kept(front);
        let k = kept(parts);
        assert forall|i: int| 0 <= i < k.len() implies !is_chunked_token(#[trigger] k[i])
            && exists|j: int| 0 <= j < parts.len() && parts[j] == k[i] by {
            if i < kept(front).len() {
                assert(k[i] == kept(front)[i]);
                let j = choose|j: int| 0 <= j < front.len() && front[j] == kept(front)[i];
                assert(parts[j] == k[i]);
            } else {
                assert(k[i] == parts.last());
                assert(parts[parts.len() - 1] == k[i]);
            }
        }
    }
}

/// The word `chunked` names the chunked coding, alone or behind other
/// parts.
pub proof fn lemma_chunked_word(v: Seq<u8>)
    ensures
        has_chunked(chunked()),
        has_chunked(v + seq![44u8] + chunked()),
{
    let w = chunked();
    assert(w.len() == 7 && w[0] == 99 && w[6] == 100);
    assert(w.last() == 100);
    assert(trim_start(w) == w);
    assert(trim_end(w) == w);
    assert(is_chunked_token(w));
    assert(comma_free(w)) by {
        assert(w[0] == 99 && w[1] == 104 && w[2] == 117 && w[3] == 110 && w[4] == 107 && w[5]
            == 101 && w[6] == 100);
    }
    lemma_tokens_single(w);
    assert(tokens(w)[0] == w);
    lemma_tokens_push(v, w);
    lemma_tokens_comma_free(v);
    let t = tokens(v + seq![44u8] + w);
    assert(t[t.len() - 1] == w);
}

/// The two framing headers have different names.
pub proof fn lemma_names_differ()
    ensures
        content_length_name() != transfer_encoding_name(),
{
    assert(content_length_name().len() == 14);
    assert(transfer_encoding_name().len() == 17);
}

/// Once the chunked coding has been taken out, the headers do not name it.
/// Every other header keeps its first value.
pub proof fn lemma_chunked_removed(entries: Seq<Entry>, other: Seq<u8>)
    requires
        is_map(entries),
    ensures
        !chunked_in(chunked_removed(entries)),
        is_map(chunked_removed(entries)),
        chunked_removed(entries).len() <= entries.len(),
        other != transfer_encoding_name() ==> first_value(chunked_removed(entries), other)
            == first_value(entries, other),
{
    let name = transfer_encoding_name();
    match first_value(entries, name) {
        None => {},
        Some(v) => {
            if has_chunked(v) {
                let parts = kept(tokens(v));
                if parts.len() == 0 {
                    lemma_removed(entries, name, other);
                } else {
                    lemma_first_replaced(entries, name, join(parts), other);
                    lemma_kept(tokens(v));
                    lemma_tokens_comma_free(v);
                    assert forall|i: int| 0 <= i < parts.len() implies comma_free(
                        #[trigger] parts[i],
                    ) by {
                        let j = choose|j: int| 0 <= j < tokens(v).len() && tokens(v)[j] == parts[i];
                        assert(comma_free(tokens(v)[j]));
                    }
                    lemma_tokens_join(parts);
                }
            }
        },
    }
}

/// Once the chunked coding has been put in, the headers name it. Every
/// other header keeps its first value.
pub proof fn lemma_chunked_inserted(entries: Seq<Entry>, other: Seq<u8>)
    requires
        is_map(entries),
    ensures
        chunked_in(chunked_inserted(entries)),
        is_map(chunked_inserted(entries)),
        chunked_inserted(entries).len() <= entries.len() + 1,
        other != transfer_encoding_name() ==> first_value(chunked_inserted(entries), other)
            == first_value(entries, other),
{
    let name = transfer_encoding_name();
    match first_value(entries, name) {
        None => {
            lemma_inserted(entries, name, chunked(), other);
            lemma_chunked_word(Seq::<u8>::empty());
        },
        Some(v) => {
            if !has_chunked(v) {
                lemma_chunked_word(v);
                if trim(v).len() == 0 {
                    lemma_first_replaced(entries, name, chunked(), other);
                } else {
                    lemma_first_replaced(entries, name, v + seq![44u8] + chunked(), other);
                }
            }
        },
    }
}

/// Makes the headers name the chunked coding, and tells whether they do.
/// They do unless the header is new to a map that takes no more names,
/// which then stays as it is; a map of at most [`MAX_ENTRIES`] names takes
/// it.
pub fn insert_chunked_encoding(headers: &mut ::http::HeaderMap) -> (named: bool)
    ensures
        named ==> header_entries(*final(headers)) == chunked_inserted(
            header_entries(*old(headers)),
        ),
        !named ==> header_entries(*final(headers)) == header_entries(*old(headers)),
        header_entries(*old(headers)).len() <= MAX_ENTRIES ==> named,
        first_value(header_entries(*old(headers)), transfer_encoding_name()) is Some ==> named,
{
    let name = transfer_encoding();
    let word: [u8; 7] = [99, 104, 117, 110, 107, 101, 100];
    assert(word@ =~= chunked());
    match header_get(headers, name.as_slice()) {
        None => header_insert(headers, name.as_slice(), word.as_slice()),
        Some(value) => {
            if value_has_chunked(value.as_slice()) {
                return true;
            }
            let (lo, hi) = trim_range(value.as_slice(), 0, value.len());
            assert(value@.subrange(0, value@.len() as int) =~= value@);
            if lo == hi {
                assert(value@.subrange(lo as int, hi as int) =~= Seq::<u8>::empty());
                header_replace_first(headers, name.as_slice(), word.as_slice());
                true
            } else {
                let mut s: Vec<u8> = value;
                let ghost base = s@;
                s.push(44);
                let mut j: usize = 0;
                while j < 7
                    invariant
                        j <= 7,
                        word@ == chunked(),
                        s@ == base + seq![44u8] + chunked().take(j as int),
                    decreases 7 - j,
                {
                    s.push(word[j]);
                    assert(s@ =~= base + seq![44u8] + chunked().take(j + 1));
                    j = j + 1;
                }
                assert(chunked().take(7) =~= chunked());
                header_replace_first(headers, name.as_slice(), s.as_slice());
                true
            }
        },
    }
}

} // verus!
