//! Which origins may use the proxy, and which DNS servers it may be used for.

use vstd::prelude::*;
use vstd::string::StrSliceExecFns;
use vstd::utf8::encode_utf8;

use crate::http::{fields, named, Field, Header};
use crate::text::{
    chars_of, eq_bytes, field_is_item, field_of_one, fields_are_apart, fields_of_both, is_field,
    is_just, item_is_field, text_field_end, trim_ascii, trim_text, trimmed_ascii, trimmed_text,
    written,
};
use crate::upstream::{parse_upstream_addr, upstream_addr};

verus! {

/// Policies that are passed to the connection handler.
pub struct Policy {
    /// Allowed origins, separated by commas; any if there is no list.
    pub allowed_origins: Option<String>,
    /// Allowed upstreams, separated by commas; any if there is no list.
    pub allowed_upstreams: Option<String>,
}

/// A list as text.
pub open spec fn list_of(list: Option<String>) -> Option<Seq<char>> {
    match list {
        Some(s) => Some(s@),
        None => None,
    }
}

/// The list that a setting stands for: none for exactly `*`.
pub open spec fn restriction(setting: Seq<char>) -> Option<Seq<char>> {
    if setting == "*"@ {
        None
    } else {
        Some(setting)
    }
}

/// Whether one of the entries of a list, without the white space around it, is
/// the origin in a header value.
pub open spec fn lists_origin(list: Seq<char>, value: Seq<u8>) -> bool {
    exists|i: int, j: int| #[trigger]
        is_field(list, ',', i, j) && encode_utf8(trimmed_text(list.subrange(i, j)))
            == trimmed_ascii(value)
}

/// Whether the origin in a header value is allowed.
pub open spec fn origin_allowed(list: Option<Seq<char>>, value: Seq<u8>) -> bool {
    list matches Some(l) ==> lists_origin(l, value)
}

/// Whether every origin that the header fields name is allowed.
pub open spec fn origins_allowed(list: Option<Seq<char>>, fields: Seq<Field>) -> bool {
    forall|i: int|
        0 <= i < fields.len() && named(#[trigger] fields[i], "origin"@) ==> origin_allowed(
            list,
            fields[i].value,
        )
}

/// Whether one of the entries of a list, without the white space around it and
/// with its port, is the address.
pub open spec fn lists_upstream(list: Seq<char>, addr: Seq<char>) -> bool {
    exists|i: int, j: int| #[trigger]
        is_field(list, ',', i, j) && upstream_addr(trimmed_text(list.subrange(i, j))) == addr
}

/// Whether an address is allowed.
pub open spec fn upstream_allowed(list: Option<Seq<char>>, addr: Seq<char>) -> bool {
    list matches Some(l) ==> lists_upstream(l, addr)
}

/// The list that a setting stands for.
fn restrict(setting: String) -> (r: Option<String>)
    ensures
        list_of(r) == restriction(setting@),
{
    proof {
        reveal_strlit("*");
        assert("*"@ =~= seq!['*']);
    }
    if is_just(setting.as_str(), '*') {
        None
    } else {
        Some(setting)
    }
}

impl Policy {
    /// The policy for the given settings.
    pub fn new(allowed_origins: String, allowed_upstreams: String) -> (r: Policy)
        ensures
            list_of(r.allowed_origins) == restriction(allowed_origins@),
            list_of(r.allowed_upstreams) == restriction(allowed_upstreams@),
    {
        Policy {
            allowed_origins: restrict(allowed_origins),
            allowed_upstreams: restrict(allowed_upstreams),
        }
    }

    /// Whether the value of an origin header field is allowed.
    pub fn allows_origin(&self, value: &[u8]) -> (r: bool)
        ensures
            r == origin_allowed(list_of(self.allowed_origins), value@),
    {
        let list = match &self.allowed_origins {
            Some(list) => list.as_str(),
            None => {
                return true;
            },
        };
        let v = chars_of(list);
        let origin = trim_ascii(value);
        let mut start: usize = 0;
        loop
            invariant
                v@ == list@,
                origin@ == trimmed_ascii(value@),
                list_of(self.allowed_origins) == Some(list@),
                start <= list@.len(),
                start == 0 || list@[start - 1] == ',',
                forall|i: int, j: int| #[trigger]
                    is_field(list@, ',', i, j) && i < start ==> encode_utf8(
                        trimmed_text(list@.subrange(i, j)),
                    ) != trimmed_ascii(value@),
            decreases list@.len() - start,
        {
            let end = text_field_end(&v, ',', start);
            let (from, to) = trim_text(&v, start, end);
            if eq_bytes(list.substring_char(from, to).as_bytes(), origin) {
                return true;
            }
            assert forall|i: int, j: int| #[trigger]
                is_field(list@, ',', i, j) && i <= end implies encode_utf8(
                trimmed_text(list@.subrange(i, j)),
            ) != trimmed_ascii(value@) by {
                if i >= start {
                    fields_are_apart(list@, ',', start as int, end as int, i, j);
                }
            }
            if end == v.len() {
                return false;
            }
            start = end + 1;
        }
    }

    /// Whether every origin that the header fields name is allowed.
    pub fn allows_origins(&self, headers: &Vec<Header>) -> (r: bool)
        ensures
            r == origins_allowed(list_of(self.allowed_origins), fields(headers@)),
    {
        let ghost all = fields(headers@);
        for i in 0..headers.len()
            invariant
                all == fields(headers@),
                forall|k: int|
                    0 <= k < i && named(#[trigger] all[k], "origin"@) ==> origin_allowed(
                        list_of(self.allowed_origins),
                        all[k].value,
                    ),
        {
            let h = &headers[i];
            assert(all[i as int] == h@);
            if h.is_named("origin") && !self.allows_origin(h.value.as_slice()) {
                return false;
            }
        }
        true
    }

    /// Whether an address, with its port, is allowed.
    pub fn allows_upstream(&self, addr: &String) -> (r: bool)
        ensures
            r == upstream_allowed(list_of(self.allowed_upstreams), addr@),
    {
        let list = match &self.allowed_upstreams {
            Some(list) => list.as_str(),
            None => {
                return true;
            },
        };
        let v = chars_of(list);
        let mut start: usize = 0;
        loop
            invariant
                v@ == list@,
                list_of(self.allowed_upstreams) == Some(list@),
                start <= list@.len(),
                start == 0 || list@[start - 1] == ',',
                forall|i: int, j: int| #[trigger]
                    is_field(list@, ',', i, j) && i < start ==> upstream_addr(
                        trimmed_text(list@.subrange(i, j)),
                    ) != addr@,
            decreases list@.len() - start,
        {
            let end = text_field_end(&v, ',', start);
            let (from, to) = trim_text(&v, start, end);
            if parse_upstream_addr(list.substring_char(from, to)) == *addr {
                return true;
            }
            assert forall|i: int, j: int| #[trigger]
                is_field(list@, ',', i, j) && i <= end implies upstream_addr(
                trimmed_text(list@.subrange(i, j)),
            ) != addr@ by {
                if i >= start {
                    fields_are_apart(list@, ',', start as int, end as int, i, j);
                }
            }
            if end == v.len() {
                return false;
            }
            start = end + 1;
        }
    }
}

/// The setting `*` disables a check.
pub proof fn any_is_allowed(value: Seq<u8>, addr: Seq<char>)
    ensures
        origin_allowed(restriction("*"@), value),
        upstream_allowed(restriction("*"@), addr),
{
}

/// Without an origin header field, the list of origins has no bearing.
pub proof fn no_origin_is_allowed(list: Option<Seq<char>>, fields: Seq<Field>)
    requires
        forall|i: int| 0 <= i < fields.len() ==> !named(#[trigger] fields[i], "origin"@),
    ensures
        origins_allowed(list, fields),
{
}

/// An address for which the list has an entry is allowed, whether or not the entry
/// and the request spell out the port for DNS.
pub proof fn listed_upstream_is_allowed(list: Seq<char>, i: int, j: int, asked: Seq<char>)
    requires
        is_field(list, ',', i, j),
        ({
            let entry = trimmed_text(list.subrange(i, j));
            entry == asked || entry == upstream_addr(asked)
        }),
    ensures
        upstream_allowed(Some(list), upstream_addr(asked)),
        upstream_allowed(Some(list), upstream_addr(upstream_addr(asked))),
{
    crate::upstream::upstream_addr_again(asked);
}

/// Exactly the setting `*` stands for no list, and every other setting for itself.
pub proof fn only_a_star_is_no_list(setting: Seq<char>)
    ensures
        restriction(setting) is None <==> setting.len() == 1 && setting[0] == '*',
        restriction(setting) matches Some(list) ==> list == setting,
{
    reveal_strlit("*");
    if setting.len() == 1 && setting[0] == '*' {
        assert(setting =~= "*"@);
    }
}

/// A list is the text that it is kept as.
pub proof fn list_is_its_text(s: String)
    ensures
        list_of(Some(s)) == Some(s@),
        list_of(None) is None,
{
}

/// A list of origins that is written as entries with commas between them allows
/// exactly these entries, without the white space around them, and a header value
/// counts without the blanks around it.
pub proof fn allows_origins_written(items: Seq<Seq<char>>, value: Seq<u8>)
    requires
        items.len() >= 1,
        forall|k: int| 0 <= k < items.len() ==> !(#[trigger] items[k]).contains(','),
    ensures
        origin_allowed(Some(written(items, ',')), value) <==> exists|k: int|
            0 <= k < items.len() && encode_utf8(trimmed_text(#[trigger] items[k]))
                == trimmed_ascii(value),
        origin_allowed(None, value),
{
    let list = written(items, ',');
    if lists_origin(list, value) {
        let (i, j) = choose|i: int, j: int| #[trigger]
            is_field(list, ',', i, j) && encode_utf8(trimmed_text(list.subrange(i, j)))
                == trimmed_ascii(value);
        let k = field_is_item(items, ',', i, j);
        assert(encode_utf8(trimmed_text(items[k])) == trimmed_ascii(value));
    }
    if exists|k: int|
        0 <= k < items.len() && encode_utf8(trimmed_text(#[trigger] items[k])) == trimmed_ascii(
            value,
        ) {
        let k = choose|k: int|
            0 <= k < items.len() && encode_utf8(trimmed_text(#[trigger] items[k]))
                == trimmed_ascii(value);
        let (i, j) = item_is_field(items, ',', k);
        assert(is_field(list, ',', i, j));
    }
}

/// A list of upstreams that is written as entries with commas between them allows
/// exactly the addresses of these entries, without the white space around them and
/// with their ports.
pub proof fn allows_upstreams_written(items: Seq<Seq<char>>, addr: Seq<char>)
    requires
        items.len() >= 1,
        forall|k: int| 0 <= k < items.len() ==> !(#[trigger] items[k]).contains(','),
    ensures
        upstream_allowed(Some(written(items, ',')), addr) <==> exists|k: int|
            0 <= k < items.len() && upstream_addr(trimmed_text(#[trigger] items[k])) == addr,
        upstream_allowed(None, addr),
{
    let list = written(items, ',');
    if lists_upstream(list, addr) {
        let (i, j) = choose|i: int, j: int| #[trigger]
            is_field(list, ',', i, j) && upstream_addr(trimmed_text(list.subrange(i, j))) == addr;
        let k = field_is_item(items, ',', i, j);
        assert(upstream_addr(trimmed_text(items[k])) == addr);
    }
    if exists|k: int|
        0 <= k < items.len() && upstream_addr(trimmed_text(#[trigger] items[k])) == addr {
        let k = choose|k: int|
            0 <= k < items.len() && upstream_addr(trimmed_text(#[trigger] items[k])) == addr;
        let (i, j) = item_is_field(items, ',', k);
        assert(is_field(list, ',', i, j));
    }
}

/// A request is allowed if each of its origins is, one field at a time: a field of
/// another name adds nothing, and a field that names an origin adds that origin.
pub proof fn origins_field_by_field(list: Option<Seq<char>>, fields: Seq<Field>, field: Field)
    ensures
        origins_allowed(list, seq![]),
        origins_allowed(list, fields.push(field)) <==> origins_allowed(list, fields) && (named(
            field,
            "origin"@,
        ) ==> origin_allowed(list, field.value)),
{
    let more = fields.push(field);
    if origins_allowed(list, more) {
        assert forall|i: int|
            0 <= i < fields.len() && named(#[trigger] fields[i], "origin"@) implies origin_allowed(
            list,
            fields[i].value,
        ) by {
            assert(more[i] == fields[i]);
        }
        assert(more[fields.len() as int] == field);
    }
}

/// A field that names no origin has no bearing on the origins, wherever it stands.
pub proof fn other_fields_name_no_origin(
    list: Option<Seq<char>>,
    fields: Seq<Field>,
    p: int,
    other: Field,
)
    requires
        0 <= p <= fields.len(),
        !named(other, "origin"@),
    ensures
        origins_allowed(list, fields.insert(p, other)) == origins_allowed(list, fields),
{
    let more = fields.insert(p, other);
    if origins_allowed(list, more) {
        assert forall|i: int|
            0 <= i < fields.len() && named(#[trigger] fields[i], "origin"@) implies origin_allowed(
            list,
            fields[i].value,
        ) by {
            let at = if i < p {
                i
            } else {
                i + 1
            };
            assert(more[at] == fields[i]);
        }
    }
    if origins_allowed(list, fields) {
        assert forall|i: int|
            0 <= i < more.len() && named(#[trigger] more[i], "origin"@) implies origin_allowed(
            list,
            more[i].value,
        ) by {
            if i != p {
                let at = if i < p {
                    i
                } else {
                    i - 1
                };
                assert(more[i] == fields[at]);
            }
        }
    }
}

/// Two lists of origins with a comma between them allow what either of them allows.
pub proof fn lists_origin_of_both(a: Seq<char>, b: Seq<char>, value: Seq<u8>)
    ensures
        lists_origin(a + seq![','] + b, value) <==> lists_origin(a, value) || lists_origin(b, value),
{
    let s = a + seq![','] + b;
    let n = a.len() + 1;
    if lists_origin(s, value) {
        let (i, j) = choose|i: int, j: int| #[trigger]
            is_field(s, ',', i, j) && encode_utf8(trimmed_text(s.subrange(i, j))) == trimmed_ascii(value);
        fields_of_both(a, b, ',', i, j);
        if i >= n {
            fields_of_both(a, b, ',', i - n, j - n);
            assert(is_field(b, ',', i - n, j - n));
        } else {
            assert(is_field(a, ',', i, j));
        }
    }
    if lists_origin(a, value) {
        let (i, j) = choose|i: int, j: int| #[trigger]
            is_field(a, ',', i, j) && encode_utf8(trimmed_text(a.subrange(i, j))) == trimmed_ascii(value);
        fields_of_both(a, b, ',', i, j);
        assert(is_field(s, ',', i, j));
    }
    if lists_origin(b, value) {
        let (i, j) = choose|i: int, j: int| #[trigger]
            is_field(b, ',', i, j) && encode_utf8(trimmed_text(b.subrange(i, j))) == trimmed_ascii(value);
        fields_of_both(a, b, ',', i, j);
        assert(is_field(s, ',', i + n, j + n));
    }
}

/// A list without a comma allows the one origin that it is.
pub proof fn lists_origin_of_one(s: Seq<char>, value: Seq<u8>)
    requires
        !s.contains(','),
    ensures
        lists_origin(s, value) <==> encode_utf8(trimmed_text(s)) == trimmed_ascii(value),
{
    field_of_one(s, ',', 0, s.len() as int);
    if lists_origin(s, value) {
        let (i, j) = choose|i: int, j: int| #[trigger]
            is_field(s, ',', i, j) && encode_utf8(trimmed_text(s.subrange(i, j))) == trimmed_ascii(value);
        field_of_one(s, ',', i, j);
    }
    assert(is_field(s, ',', 0, s.len() as int));
}

/// Two lists of upstreams with a comma between them allow what either of them allows.
pub proof fn lists_upstream_of_both(a: Seq<char>, b: Seq<char>, addr: Seq<char>)
    ensures
        lists_upstream(a + seq![','] + b, addr) <==> lists_upstream(a, addr) || lists_upstream(b, addr),
{
    let s = a + seq![','] + b;
    let n = a.len() + 1;
    if lists_upstream(s, addr) {
        let (i, j) = choose|i: int, j: int| #[trigger]
            is_field(s, ',', i, j) && upstream_addr(trimmed_text(s.subrange(i, j))) == addr;
        fields_of_both(a, b, ',', i, j);
        if i >= n {
            fields_of_both(a, b, ',', i - n, j - n);
            assert(is_field(b, ',', i - n, j - n));
        } else {
            assert(is_field(a, ',', i, j));
        }
    }
    if lists_upstream(a, addr) {
        let (i, j) = choose|i: int, j: int| #[trigger]
            is_field(a, ',', i, j) && upstream_addr(trimmed_text(a.subrange(i, j))) == addr;
        fields_of_both(a, b, ',', i, j);
        assert(is_field(s, ',', i, j));
    }
    if lists_upstream(b, addr) {
        let (i, j) = choose|i: int, j: int| #[trigger]
            is_field(b, ',', i, j) && upstream_addr(trimmed_text(b.subrange(i, j))) == addr;
        fields_of_both(a, b, ',', i, j);
        assert(is_field(s, ',', i + n, j + n));
    }
}

/// A list without a comma allows the one upstream that it is.
pub proof fn lists_upstream_of_one(s: Seq<char>, addr: Seq<char>)
    requires
        !s.contains(','),
    ensures
        lists_upstream(s, addr) <==> upstream_addr(trimmed_text(s)) == addr,
{
    field_of_one(s, ',', 0, s.len() as int);
    if lists_upstream(s, addr) {
        let (i, j) = choose|i: int, j: int| #[trigger]
            is_field(s, ',', i, j) && upstream_addr(trimmed_text(s.subrange(i, j))) == addr;
        field_of_one(s, ',', i, j);
    }
    assert(is_field(s, ',', 0, s.len() as int));
}

/// A list restricts to what it lists, and without a list there is no restriction.
pub proof fn list_restricts(list: Seq<char>, value: Seq<u8>, addr: Seq<char>)
    ensures
        origin_allowed(Some(list), value) == lists_origin(list, value),
        upstream_allowed(Some(list), addr) == lists_upstream(list, addr),
        origin_allowed(None, value),
        upstream_allowed(None, addr),
{
}

} // verus!
