//! Lists of fields, blanks around a field, and letter case, in header values and
//! in configuration.

use vstd::prelude::*;
use vstd::slice::slice_subrange;

verus! {

/// What is left of `s` without the blanks at its front and its back.
pub open spec fn trimmed<A>(s: Seq<A>, blank: spec_fn(A) -> bool) -> Seq<A>
    decreases s.len(),
{
    if s.len() == 0 {
        s
    } else if blank(s[0]) {
        trimmed(s.skip(1), blank)
    } else if blank(s.last()) {
        trimmed(s.drop_last(), blank)
    } else {
        s
    }
}

/// ASCII whitespace: space, tab, line feed, form feed and carriage return.
pub open spec fn is_ascii_blank(b: u8) -> bool {
    b == 0x20 || b == 0x09 || b == 0x0a || b == 0x0c || b == 0x0d
}

/// Bytes without the ASCII whitespace around them.
pub open spec fn trimmed_ascii(s: Seq<u8>) -> Seq<u8> {
    trimmed(s, |b: u8| is_ascii_blank(b))
}

/// Bytes without the ASCII whitespace around them.
pub fn trim_ascii(v: &[u8]) -> (r: &[u8])
    ensures
        r@ == trimmed_ascii(v@),
{
    let ghost blank = |b: u8| is_ascii_blank(b);
    let mut start: usize = 0;
    let mut end: usize = v.len();
    assert(v@.subrange(0, v@.len() as int) =~= v@);
    while start < end && ascii_blank(v[start])
        invariant
            start <= end == v@.len(),
            trimmed(v@.subrange(start as int, end as int), blank) == trimmed(v@, blank),
            blank == |b: u8| is_ascii_blank(b),
        decreases end - start,
    {
        assert(v@.subrange(start as int, end as int).skip(1) =~= v@.subrange(
            start + 1,
            end as int,
        ));
        start += 1;
    }
    while start < end && ascii_blank(v[end - 1])
        invariant
            start <= end <= v@.len(),
            start < end ==> !is_ascii_blank(v@[start as int]),
            trimmed(v@.subrange(start as int, end as int), blank) == trimmed(v@, blank),
            blank == |b: u8| is_ascii_blank(b),
        decreases end - start,
    {
        assert(v@.subrange(start as int, end as int).drop_last() =~= v@.subrange(
            start as int,
            end - 1,
        ));
        end -= 1;
    }
    slice_subrange(v, start, end)
}

fn ascii_blank(b: u8) -> (r: bool)
    ensures
        r == is_ascii_blank(b),
{
    b == 0x20 || b == 0x09 || b == 0x0a || b == 0x0c || b == 0x0d
}

/// White space as Unicode defines it.
pub open spec fn is_blank(c: char) -> bool {
    let n = c as u32;
    0x09 <= n <= 0x0d || n == 0x20 || n == 0x85 || n == 0xa0 || n == 0x1680 || 0x2000 <= n <= 0x200a
        || n == 0x2028 || n == 0x2029 || n == 0x202f || n == 0x205f || n == 0x3000
}

/// Whether a character is white space as Unicode defines it.
pub fn blank(c: char) -> (r: bool)
    ensures
        r == is_blank(c),
{
    let n: u32 = c as u32;
    0x09 <= n && n <= 0x0d || n == 0x20 || n == 0x85 || n == 0xa0 || n == 0x1680 || 0x2000 <= n && n
        <= 0x200a || n == 0x2028 || n == 0x2029 || n == 0x202f || n == 0x205f || n == 0x3000
}

/// Text without the white space around it.
pub open spec fn trimmed_text(s: Seq<char>) -> Seq<char> {
    trimmed(s, |c: char| is_blank(c))
}

/// The range `start..end` of `v` without the white space around it.
pub fn trim_text(v: &Vec<char>, start: usize, end: usize) -> (r: (usize, usize))
    requires
        start <= end <= v@.len(),
    ensures
        start <= r.0 <= r.1 <= end,
        v@.subrange(r.0 as int, r.1 as int) == trimmed_text(v@.subrange(start as int, end as int)),
{
    let ghost white = |c: char| is_blank(c);
    let ghost whole = v@.subrange(start as int, end as int);
    let mut i: usize = start;
    let mut j: usize = end;
    while i < j && blank(v[i])
        invariant
            start <= i <= j == end <= v@.len(),
            trimmed(v@.subrange(i as int, j as int), white) == trimmed(whole, white),
            white == |c: char| is_blank(c),
        decreases j - i,
    {
        assert(v@.subrange(i as int, j as int).skip(1) =~= v@.subrange(i + 1, j as int));
        i += 1;
    }
    while i < j && blank(v[j - 1])
        invariant
            start <= i <= j <= end <= v@.len(),
            i < j ==> !is_blank(v@[i as int]),
            trimmed(v@.subrange(i as int, j as int), white) == trimmed(whole, white),
            white == |c: char| is_blank(c),
        decreases j - i,
    {
        assert(v@.subrange(i as int, j as int).drop_last() =~= v@.subrange(i as int, j - 1));
        j -= 1;
    }
    (i, j)
}

/// A byte with an upper case ASCII letter made lower case.
pub open spec fn lower(b: u8) -> u8 {
    if 0x41 <= b <= 0x5a {
        (b + 0x20) as u8
    } else {
        b
    }
}

/// Whether two byte strings differ in nothing but the case of ASCII letters.
pub open spec fn same_ignoring_case(a: Seq<u8>, b: Seq<u8>) -> bool {
    a.len() == b.len() && forall|i: int| 0 <= i < a.len() ==> lower(#[trigger] a[i]) == lower(b[i])
}

/// Whether two byte strings differ in nothing but the case of ASCII letters.
pub fn eq_ignoring_case(a: &[u8], b: &[u8]) -> (r: bool)
    ensures
        r == same_ignoring_case(a@, b@),
{
    if a.len() != b.len() {
        return false;
    }
    for i in 0..a.len()
        invariant
            a@.len() == b@.len(),
            forall|k: int| 0 <= k < i ==> lower(#[trigger] a@[k]) == lower(b@[k]),
    {
        if to_lower(a[i]) != to_lower(b[i]) {
            assert(lower(a@[i as int]) != lower(b@[i as int]));
            return false;
        }
    }
    true
}

fn to_lower(b: u8) -> (r: u8)
    ensures
        r == lower(b),
{
    if 0x41 <= b && b <= 0x5a {
        b + 0x20
    } else {
        b
    }
}

/// Whether two byte strings are the same.
pub fn eq_bytes(a: &[u8], b: &[u8]) -> (r: bool)
    ensures
        r == (a@ == b@),
{
    if a.len() != b.len() {
        return false;
    }
    for i in 0..a.len()
        invariant
            a@.len() == b@.len(),
            forall|k: int| 0 <= k < i ==> a@[k] == b@[k],
    {
        if a[i] != b[i] {
            return false;
        }
    }
    assert(a@ =~= b@);
    true
}

/// Whether `i..j` is one of the fields that the separators cut `s` into: it holds
/// no separator, and reaches as far as that allows.
pub open spec fn is_field<A>(s: Seq<A>, sep: A, i: int, j: int) -> bool {
    &&& 0 <= i <= j <= s.len()
    &&& !s.subrange(i, j).contains(sep)
    &&& i == 0 || s[i - 1] == sep
    &&& j == s.len() || s[j] == sep
}

/// Two fields that start at the same place are the same, and none starts inside
/// of another.
pub proof fn fields_are_apart<A>(s: Seq<A>, sep: A, i: int, j: int, k: int, l: int)
    requires
        is_field(s, sep, i, j),
        is_field(s, sep, k, l),
        i <= k <= j,
    ensures
        k == i,
        l == j,
{
    if i < k {
        assert(s.subrange(i, j)[k - 1 - i] == sep);
    }
    if l < j {
        assert(s.subrange(i, j)[l - i] == sep);
    }
    if j < l {
        assert(s.subrange(k, l)[j - k] == sep);
    }
}

/// The end of the field that starts at `start`.
pub fn byte_field_end(v: &[u8], sep: u8, start: usize) -> (end: usize)
    requires
        start <= v@.len(),
        start == 0 || v@[start - 1] == sep,
    ensures
        is_field(v@, sep, start as int, end as int),
{
    let mut end: usize = start;
    while end < v.len() && v[end] != sep
        invariant
            start <= end <= v@.len(),
            forall|k: int| start <= k < end ==> v@[k] != sep,
        decreases v@.len() - end,
    {
        end += 1;
    }
    end
}

/// The end of the field that starts at `start`.
pub fn text_field_end(v: &Vec<char>, sep: char, start: usize) -> (end: usize)
    requires
        start <= v@.len(),
        start == 0 || v@[start - 1] == sep,
    ensures
        is_field(v@, sep, start as int, end as int),
{
    let mut end: usize = start;
    while end < v.len() && v[end] != sep
        invariant
            start <= end <= v@.len(),
            forall|k: int| start <= k < end ==> v@[k] != sep,
        decreases v@.len() - end,
    {
        end += 1;
    }
    end
}

/// The characters of a string.
pub fn chars_of(s: &str) -> (v: Vec<char>)
    ensures
        v@ == s@,
{
    let mut v: Vec<char> = Vec::new();
    for c in it: s.chars()
        invariant
            v@ == it.seq().take(it.index() as int),
            it.seq() == s@,
    {
        v.push(c);
    }
    v
}

/// Whether a string is just the given character.
pub fn is_just(s: &str, c: char) -> (r: bool)
    ensures
        r == (s@ == seq![c]),
{
    let v = chars_of(s);
    let r = v.len() == 1 && v[0] == c;
    assert(r ==> s@ =~= seq![c]);
    r
}

/// Put back between blanks, what has no blanks at its ends is found again.
pub proof fn trimmed_finds_again<A>(a: Seq<A>, s: Seq<A>, b: Seq<A>, blank: spec_fn(A) -> bool)
    requires
        forall|k: int| 0 <= k < a.len() ==> blank(#[trigger] a[k]),
        forall|k: int| 0 <= k < b.len() ==> blank(#[trigger] b[k]),
        s.len() > 0 ==> !blank(s[0]) && !blank(s.last()),
    ensures
        trimmed(a + s + b, blank) == s,
    decreases a.len() + b.len(),
{
    let all = a + s + b;
    if a.len() > 0 {
        assert(all[0] == a[0]);
        assert(all.skip(1) =~= a.skip(1) + s + b);
        assert forall|k: int| 0 <= k < a.skip(1).len() implies blank(#[trigger] a.skip(1)[k]) by {
            assert(a.skip(1)[k] == a[k + 1]);
        }
        trimmed_finds_again(a.skip(1), s, b, blank);
    } else if s.len() > 0 {
        assert(all[0] == s[0]);
        if b.len() > 0 {
            assert(all.last() == b.last());
            assert(all.drop_last() =~= a + s + b.drop_last());
            assert forall|k: int| 0 <= k < b.drop_last().len() implies blank(
                #[trigger] b.drop_last()[k],
            ) by {
                assert(b.drop_last()[k] == b[k]);
            }
            trimmed_finds_again(a, s, b.drop_last(), blank);
        } else {
            assert(all =~= s);
        }
    } else if b.len() > 0 {
        assert(all[0] == b[0]);
        assert(all.skip(1) =~= a + s + b.skip(1));
        assert forall|k: int| 0 <= k < b.skip(1).len() implies blank(#[trigger] b.skip(1)[k]) by {
            assert(b.skip(1)[k] == b[k + 1]);
        }
        trimmed_finds_again(a, s, b.skip(1), blank);
    } else {
        assert(all =~= s);
    }
}

/// Between spaces, tabs, line feeds, form feeds and carriage returns, bytes that
/// neither begin nor end with one of them are found again.
pub proof fn trimmed_ascii_finds_again(a: Seq<u8>, s: Seq<u8>, b: Seq<u8>)
    requires
        forall|k: int|
            0 <= k < a.len() ==> #[trigger] a[k] == 0x20 || a[k] == 0x09 || a[k] == 0x0a || a[k]
                == 0x0c || a[k] == 0x0d,
        forall|k: int|
            0 <= k < b.len() ==> #[trigger] b[k] == 0x20 || b[k] == 0x09 || b[k] == 0x0a || b[k]
                == 0x0c || b[k] == 0x0d,
        s.len() > 0 ==> s[0] != 0x20 && s[0] != 0x09 && s[0] != 0x0a && s[0] != 0x0c && s[0] != 0x0d,
        s.len() > 0 ==> s.last() != 0x20 && s.last() != 0x09 && s.last() != 0x0a && s.last() != 0x0c
            && s.last() != 0x0d,
    ensures
        trimmed_ascii(a + s + b) == s,
{
    trimmed_finds_again(a, s, b, |x: u8| is_ascii_blank(x));
}

/// What is trimmed off text is what Unicode calls white space, and the text between
/// is found again.
pub proof fn trimmed_text_finds_again(a: Seq<char>, s: Seq<char>, b: Seq<char>)
    requires
        forall|k: int| 0 <= k < a.len() ==> is_white_space(#[trigger] a[k] as u32),
        forall|k: int| 0 <= k < b.len() ==> is_white_space(#[trigger] b[k] as u32),
        s.len() > 0 ==> !is_white_space(s[0] as u32) && !is_white_space(s.last() as u32),
    ensures
        trimmed_text(a + s + b) == s,
{
    assert forall|k: int| 0 <= k < a.len() implies is_blank(#[trigger] a[k]) by {
        assert(is_white_space(a[k] as u32));
    }
    assert forall|k: int| 0 <= k < b.len() implies is_blank(#[trigger] b[k]) by {
        assert(is_white_space(b[k] as u32));
    }
    trimmed_finds_again(a, s, b, |c: char| is_blank(c));
}

/// The 25 code points that Unicode calls white space, one by one.
pub open spec fn is_white_space(n: u32) -> bool {
    seq![
        0x0009u32, 0x000a, 0x000b, 0x000c, 0x000d, 0x0020, 0x0085, 0x00a0, 0x1680, 0x2000, 0x2001,
        0x2002, 0x2003, 0x2004, 0x2005, 0x2006, 0x2007, 0x2008, 0x2009, 0x200a, 0x2028, 0x2029,
        0x202f, 0x205f, 0x3000,
    ].contains(n)
}

/// Ignoring case is to treat two letters alike that are 32 apart, and nothing else:
/// byte by byte, they are the same, or the upper and the lower case of a letter.
pub proof fn same_ignoring_case_bytes(a: Seq<u8>, b: Seq<u8>)
    ensures
        same_ignoring_case(a, b) <==> {
            &&& a.len() == b.len()
            &&& forall|i: int|
                0 <= i < a.len() ==> {
                    ||| #[trigger] a[i] == b[i]
                    ||| 0x41 <= a[i] <= 0x5a && b[i] == a[i] + 32
                    ||| 0x41 <= b[i] <= 0x5a && a[i] == b[i] + 32
                }
        },
        same_ignoring_case(a, a),
        same_ignoring_case(a, b) == same_ignoring_case(b, a),
{
    if same_ignoring_case(a, b) {
        assert forall|i: int| 0 <= i < a.len() implies {
            ||| #[trigger] a[i] == b[i]
            ||| 0x41 <= a[i] <= 0x5a && b[i] == a[i] + 32
            ||| 0x41 <= b[i] <= 0x5a && a[i] == b[i] + 32
        } by {
            assert(lower(a[i]) == lower(b[i]));
        }
        assert forall|i: int| 0 <= i < b.len() implies lower(#[trigger] b[i]) == lower(a[i]) by {
            assert(lower(a[i]) == lower(b[i]));
        }
    }
    if same_ignoring_case(b, a) {
        assert forall|i: int| 0 <= i < a.len() implies lower(#[trigger] a[i]) == lower(b[i]) by {
            assert(lower(b[i]) == lower(a[i]));
        }
    }
}

/// Items with a separator between each two of them.
pub open spec fn written<A>(items: Seq<Seq<A>>, sep: A) -> Seq<A>
    decreases items.len(),
{
    if items.len() == 0 {
        seq![]
    } else if items.len() == 1 {
        items[0]
    } else {
        items[0] + seq![sep] + written(items.skip(1), sep)
    }
}

/// Each of the items, written with separators between them, is a field.
pub proof fn item_is_field<A>(items: Seq<Seq<A>>, sep: A, k: int) -> (field: (int, int))
    requires
        0 <= k < items.len(),
        forall|l: int| 0 <= l < items.len() ==> !(#[trigger] items[l]).contains(sep),
    ensures
        is_field(written(items, sep), sep, field.0, field.1),
        written(items, sep).subrange(field.0, field.1) == items[k],
    decreases items.len(),
{
    let s = written(items, sep);
    let first = items[0];
    let n = first.len() as int;
    assert(!first.contains(sep));
    assert(s.subrange(0, n) =~= first);
    if items.len() > 1 {
        let rest = items.skip(1);
        let t = written(rest, sep);
        lemma_first_field(first, t, sep);
        if k > 0 {
            assert forall|l: int| 0 <= l < rest.len() implies !(#[trigger] rest[l]).contains(
                sep,
            ) by {
                assert(rest[l] == items[l + 1]);
            }
            let (i, j) = item_is_field(rest, sep, k - 1);
            lemma_later_field(first, t, sep, i, j);
            (i + n + 1, j + n + 1)
        } else {
            (0int, n)
        }
    } else {
        (0int, n)
    }
}

/// Each field of items without a separator in them, written with separators
/// between them, is one of the items.
pub proof fn field_is_item<A>(items: Seq<Seq<A>>, sep: A, i: int, j: int) -> (k: int)
    requires
        items.len() >= 1,
        forall|l: int| 0 <= l < items.len() ==> !(#[trigger] items[l]).contains(sep),
        is_field(written(items, sep), sep, i, j),
    ensures
        0 <= k < items.len(),
        items[k] == written(items, sep).subrange(i, j),
    decreases items.len(),
{
    let s = written(items, sep);
    let first = items[0];
    let n = first.len() as int;
    assert(!first.contains(sep));
    assert(s.subrange(0, n) =~= first);
    if items.len() == 1 {
        fields_are_apart(s, sep, 0, n, i, j);
        0
    } else {
        let rest = items.skip(1);
        let t = written(rest, sep);
        lemma_first_field(first, t, sep);
        if i <= n {
            fields_are_apart(s, sep, 0, n, i, j);
            0
        } else {
            assert forall|l: int| 0 <= l < rest.len() implies !(#[trigger] rest[l]).contains(
                sep,
            ) by {
                assert(rest[l] == items[l + 1]);
            }
            lemma_later_field(first, t, sep, i - n - 1, j - n - 1);
            let k = field_is_item(rest, sep, i - n - 1, j - n - 1);
            k + 1
        }
    }
}

/// What stands ahead of the first separator is a field.
proof fn lemma_first_field<A>(first: Seq<A>, t: Seq<A>, sep: A)
    requires
        !first.contains(sep),
    ensures
        is_field(first + seq![sep] + t, sep, 0, first.len() as int),
{
    let s = first + seq![sep] + t;
    assert(s.subrange(0, first.len() as int) =~= first);
    assert(s[first.len() as int] == sep);
}

/// The fields behind the first separator are those of what stands behind it.
proof fn lemma_later_field<A>(first: Seq<A>, t: Seq<A>, sep: A, i: int, j: int)
    requires
        0 <= i,
    ensures
        ({
            let s = first + seq![sep] + t;
            let n = first.len() + 1;
            &&& is_field(t, sep, i, j) <==> is_field(s, sep, i + n, j + n)
            &&& is_field(t, sep, i, j) ==> t.subrange(i, j) == s.subrange(i + n, j + n)
        }),
{
    let s = first + seq![sep] + t;
    let n = first.len() + 1;
    assert(s.len() == n + t.len());
    if 0 <= i <= j <= t.len() {
        assert(s.subrange(i + n, j + n) =~= t.subrange(i, j));
        if i > 0 {
            assert(s[i + n - 1] == t[i - 1]);
        } else {
            assert(s[n - 1] == sep);
        }
        if j < t.len() {
            assert(s[j + n] == t[j]);
        }
    }
}

/// A field is a stretch without the separator that the ends of the text or
/// separators bound on both sides.
pub proof fn field_is_bounded<A>(s: Seq<A>, sep: A, i: int, j: int)
    ensures
        is_field(s, sep, i, j) <==> {
            &&& 0 <= i <= j <= s.len()
            &&& forall|k: int| i <= k < j ==> #[trigger] s[k] != sep
            &&& i > 0 ==> s[i - 1] == sep
            &&& j < s.len() ==> s[j] == sep
        },
{
    if 0 <= i <= j <= s.len() {
        if forall|k: int| i <= k < j ==> #[trigger] s[k] != sep {
            assert forall|l: int| 0 <= l < j - i implies s.subrange(i, j)[l] != sep by {
                assert(s[i + l] != sep);
            }
        }
        if !s.subrange(i, j).contains(sep) {
            assert forall|k: int| i <= k < j implies #[trigger] s[k] != sep by {
                assert(s.subrange(i, j)[k - i] == s[k]);
            }
        }
    }
}

/// With a separator between them, two texts have the fields of the one and, further
/// on, those of the other.
pub proof fn fields_of_both<A>(a: Seq<A>, b: Seq<A>, sep: A, i: int, j: int)
    ensures
        ({
            let s = a + seq![sep] + b;
            let n = a.len() + 1;
            &&& is_field(a, sep, i, j) ==> is_field(s, sep, i, j) && s.subrange(i, j)
                == a.subrange(i, j)
            &&& is_field(b, sep, i, j) ==> is_field(s, sep, i + n, j + n) && s.subrange(
                i + n,
                j + n,
            ) == b.subrange(i, j)
            &&& is_field(s, sep, i, j) && i < n ==> is_field(a, sep, i, j)
            &&& is_field(s, sep, i, j) && i >= n ==> is_field(b, sep, i - n, j - n)
        }),
{
    let s = a + seq![sep] + b;
    let n = a.len() + 1;
    field_is_bounded(s, sep, i, j);
    field_is_bounded(a, sep, i, j);
    assert(s[n - 1] == sep);
    if 0 <= i <= j <= a.len() {
        assert(s.subrange(i, j) =~= a.subrange(i, j));
        assert forall|k: int| 0 <= k < a.len() implies #[trigger] s[k] == a[k] by {}
        if i > 0 {
            assert(s[i - 1] == a[i - 1]);
        }
    }
    if is_field(b, sep, i, j) {
        lemma_later_field(a, b, sep, i, j);
    }
    if is_field(s, sep, i, j) {
        if i >= n {
            lemma_later_field(a, b, sep, i - n, j - n);
        } else {
            assert(j <= a.len());
        }
    }
}

/// A text without the separator is its own only field.
pub proof fn field_of_one<A>(s: Seq<A>, sep: A, i: int, j: int)
    requires
        !s.contains(sep),
    ensures
        is_field(s, sep, i, j) <==> i == 0 && j == s.len(),
        s.subrange(0, s.len() as int) == s,
{
    assert(s.subrange(0, s.len() as int) =~= s);
    if is_field(s, sep, i, j) {
        if i > 0 {
            assert(s[i - 1] == sep);
        }
        if j < s.len() {
            assert(s[j] == sep);
        }
    }
}

} // verus!
