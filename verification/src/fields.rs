//! Header fields, held in the `http` crate's header map.

use vstd::prelude::*;

use http::{HeaderMap, HeaderName, HeaderValue};


verus! {

#[verifier::external_type_specification]
#[verifier::external_body]
#[verifier::reject_recursive_types(T)]
pub struct ExHeaderMap<T>(http::HeaderMap<T>);

#[verifier::external_type_specification]
#[verifier::external_body]
pub struct ExHeaderValue(http::HeaderValue);

/// The fields of a header map in the order in which it is walked: name and
/// value. The fields of one name stand together.
pub uninterp spec fn header_fields(h: HeaderMap<HeaderValue>) -> Seq<(Seq<char>, Seq<u8>)>;

/// The number of fields up to which a map can grow without any risk of
/// running into the limits of `HeaderMap`.
pub const MAX_FIELDS: usize = 4096;

// ---------------------------------------------------------------------------
// Names and values
// ---------------------------------------------------------------------------

/// The characters of a field name: letters, digits and some marks.
pub open spec fn is_name_char(c: char) -> bool {
    ||| 'a' <= c <= 'z'
    ||| 'A' <= c <= 'Z'
    ||| '0' <= c <= '9'
    ||| c == '!' || c == '#' || c == '$' || c == '%' || c == '&' || c == '\'' || c == '*' || c
        == '+' || c == '-' || c == '.' || c == '^' || c == '_' || c == '`' || c == '|' || c == '~'
}

/// `c` with ASCII capitals made small.
pub open spec fn small(c: char) -> char {
    if 'A' <= c <= 'Z' {
        (c as u32 + 32) as char
    } else {
        c
    }
}

pub(crate) fn small_letter(c: char) -> (r: char)
    ensures
        r == small(c),
{
    if 'A' <= c && c <= 'Z' {
        (c as u8 + 32) as char
    } else {
        c
    }
}

/// The normal form of a field name, in small letters; none for a text that is
/// no field name.
pub open spec fn field_name(s: Seq<char>) -> Option<Seq<char>> {
    if 1 <= s.len() <= 65535 && (forall|i: int| 0 <= i < s.len() ==> is_name_char(#[trigger] s[i])) {
        Some(s.map_values(|c: char| small(c)))
    } else {
        None
    }
}

/// The bytes that a field value may hold.
pub open spec fn is_value_byte(b: u8) -> bool {
    (b >= 32 && b != 127) || b == 9
}

pub open spec fn is_field_value(v: Seq<u8>) -> bool {
    forall|i: int| 0 <= i < v.len() ==> is_value_byte(#[trigger] v[i])
}

/// The bytes that are visible ASCII.
pub open spec fn is_visible(b: u8) -> bool {
    (32 <= b < 127) || b == 9
}

/// A field value as text, where all of it is visible ASCII.
pub open spec fn value_text(v: Seq<u8>) -> Option<Seq<char>> {
    if forall|i: int| 0 <= i < v.len() ==> is_visible(#[trigger] v[i]) {
        Some(v.map_values(|b: u8| b as char))
    } else {
        None
    }
}

/// A field value as text: empty where it is not visible ASCII throughout.
pub open spec fn value_text_or_empty(v: Seq<u8>) -> Seq<char> {
    match value_text(v) {
        Some(s) => s,
        None => Seq::empty(),
    }
}

/// Reads a field value as text.
pub fn text_value(v: &[u8]) -> (r: Option<String>)
    ensures
        match r {
            Some(s) => value_text(v@) == Some(s@),
            None => value_text(v@) is None,
        },
{
    let mut s = String::new();
    for i in 0..v.len()
        invariant
            s@ == v@.take(i as int).map_values(|b: u8| b as char),
            forall|j: int| 0 <= j < i ==> is_visible(#[trigger] v@[j]),
    {
        let b = v[i];
        if !((32 <= b && b < 127) || b == 9) {
            assert(!is_visible(v@[i as int]));
            return None;
        }
        s.push(b as char);
        assert(s@ =~= v@.take(i + 1).map_values(|b: u8| b as char));
    }
    assert(v@.take(v@.len() as int) =~= v@);
    Some(s)
}

// ---------------------------------------------------------------------------
// The fields of a map
// ---------------------------------------------------------------------------

/// The value of the first field called `name`.
pub open spec fn first_value(fields: Seq<(Seq<char>, Seq<u8>)>, name: Seq<char>) -> Option<
    Seq<u8>,
>
    decreases fields.len(),
{
    if fields.len() == 0 {
        None
    } else if fields[0].0 == name {
        Some(fields[0].1)
    } else {
        first_value(fields.skip(1), name)
    }
}

/// The value that a text as field name leads to.
pub open spec fn value_of(fields: Seq<(Seq<char>, Seq<u8>)>, key: Seq<char>) -> Option<Seq<u8>> {
    match field_name(key) {
        Some(name) => first_value(fields, name),
        None => None,
    }
}

/// Where a further field called `name` goes: behind the last of that name, or
/// to the end.
pub open spec fn append_at(fields: Seq<(Seq<char>, Seq<u8>)>, name: Seq<char>) -> int {
    if last_of(fields, name) >= 0 {
        last_of(fields, name) + 1
    } else {
        fields.len() as int
    }
}

/// The last position that holds a field called `name`, or -1.
pub open spec fn last_of(fields: Seq<(Seq<char>, Seq<u8>)>, name: Seq<char>) -> int
    decreases fields.len(),
{
    if fields.len() == 0 {
        -1
    } else if fields.last().0 == name {
        fields.len() - 1
    } else {
        last_of(fields.drop_last(), name)
    }
}

/// The fields with one more.
pub open spec fn appended(
    fields: Seq<(Seq<char>, Seq<u8>)>,
    name: Seq<char>,
    value: Seq<u8>,
) -> Seq<(Seq<char>, Seq<u8>)> {
    fields.insert(append_at(fields, name), (name, value))
}

/// The fields that are not called `name`.
pub open spec fn without(fields: Seq<(Seq<char>, Seq<u8>)>, name: Seq<char>) -> Seq<
    (Seq<char>, Seq<u8>),
>
    decreases fields.len(),
{
    if fields.len() == 0 {
        Seq::empty()
    } else if fields[0].0 == name {
        without(fields.skip(1), name)
    } else {
        seq![fields[0]] + without(fields.skip(1), name)
    }
}

/// The fields with one field called `name`, which stands where the first of
/// that name stood, or at the end.
pub open spec fn replaced(
    fields: Seq<(Seq<char>, Seq<u8>)>,
    name: Seq<char>,
    value: Seq<u8>,
) -> Seq<(Seq<char>, Seq<u8>)>
    decreases fields.len(),
{
    if fields.len() == 0 {
        seq![(name, value)]
    } else if fields[0].0 == name {
        seq![(name, value)] + without(fields.skip(1), name)
    } else {
        seq![fields[0]] + replaced(fields.skip(1), name, value)
    }
}

/// Fields as plain values.
pub open spec fn plain(v: Seq<(String, Vec<u8>)>) -> Seq<(Seq<char>, Seq<u8>)> {
    v.map_values(|f: (String, Vec<u8>)| (f.0@, f.1@))
}

/// The normal form of a name is its own normal form.
pub proof fn lemma_field_name_is_normal(s: Seq<char>)
    ensures
        field_name(s) is Some ==> field_name(field_name(s)->0) == field_name(s),
{
    if field_name(s) is Some {
        let t = field_name(s)->0;
        assert forall|i: int| 0 <= i < t.len() implies is_name_char(#[trigger] t[i]) && small(t[i])
            == t[i] by {
            assert(is_name_char(s[i]));
            assert(t[i] == small(s[i]));
        }
        assert(t.map_values(|c: char| small(c)) =~= t);
    }
}

/// A further field has its place among the fields or at their end.
pub proof fn lemma_append_at(fields: Seq<(Seq<char>, Seq<u8>)>, name: Seq<char>)
    ensures
        0 <= append_at(fields, name) <= fields.len(),
        appended(fields, name, Seq::empty()).len() == fields.len() + 1,
{
    lemma_last_of(fields, name);
}

proof fn lemma_last_of(fields: Seq<(Seq<char>, Seq<u8>)>, name: Seq<char>)
    ensures
        -1 <= last_of(fields, name) < fields.len(),
    decreases fields.len(),
{
    if fields.len() > 0 {
        lemma_last_of(fields.drop_last(), name);
    }
}

/// After a replacement the name has that value and no other, and the fields of
/// other names are as they were.
pub proof fn lemma_replaced(fields: Seq<(Seq<char>, Seq<u8>)>, name: Seq<char>, value: Seq<u8>)
    ensures
        first_value(replaced(fields, name, value), name) == Some(value),
        without(replaced(fields, name, value), name) == without(fields, name),
    decreases fields.len(),
{
    let r = replaced(fields, name, value);
    if fields.len() == 0 {
        assert(r.skip(1) =~= fields);
    } else if fields[0].0 == name {
        assert(r.skip(1) =~= without(fields.skip(1), name));
        lemma_without_twice(fields.skip(1), name);
    } else {
        lemma_replaced(fields.skip(1), name, value);
        assert(r.skip(1) =~= replaced(fields.skip(1), name, value));
    }
}

proof fn lemma_without_twice(fields: Seq<(Seq<char>, Seq<u8>)>, name: Seq<char>)
    ensures
        without(without(fields, name), name) == without(fields, name),
    decreases fields.len(),
{
    if fields.len() > 0 {
        lemma_without_twice(fields.skip(1), name);
        let w = without(fields, name);
        if fields[0].0 != name {
            assert(w.skip(1) =~= without(fields.skip(1), name));
        }
    }
}

/// `HeaderMap::with_capacity`: an empty map.
#[verifier::external_body]
pub(crate) fn header_map(capacity: usize) -> (h: HeaderMap<HeaderValue>)
    requires
        capacity <= MAX_FIELDS,
    ensures
        header_fields(h) == Seq::<(Seq<char>, Seq<u8>)>::empty(),
{
    HeaderMap::with_capacity(capacity)
}

/// `HeaderMap::get` with a text as key: the first value under that name,
/// compared without regard to case; none where the text is no field name.
#[verifier::external_body]
pub(crate) fn header_get(h: &HeaderMap<HeaderValue>, key: &str) -> (r: Option<Vec<u8>>)
    ensures
        match r {
            Some(v) => value_of(header_fields(*h), key@) == Some(v@),
            None => value_of(header_fields(*h), key@) is None,
        },
{
    h.get(key).map(|v| v.as_bytes().to_vec())
}

/// `HeaderMap::iter`: every field once, in the order of [`header_fields`].
#[verifier::external_body]
pub(crate) fn header_list(h: &HeaderMap<HeaderValue>) -> (r: Vec<(String, Vec<u8>)>)
    ensures
        plain(r@) == header_fields(*h),
{
    h.iter().map(|(n, v)| (n.as_str().to_string(), v.as_bytes().to_vec())).collect()
}

/// `HeaderName::from_bytes`: the normal form of a field name, where the text
/// is one.
#[verifier::external_body]
pub(crate) fn header_name(s: &str) -> (r: Option<String>)
    ensures
        match r {
            Some(n) => field_name(s@) == Some(n@),
            None => field_name(s@) is None,
        },
{
    HeaderName::from_bytes(s.as_bytes()).ok().map(|n| n.as_str().to_string())
}

/// `HeaderValue::from_bytes`: the same bytes, where a field value may hold
/// all of them.
#[verifier::external_body]
pub(crate) fn header_value(v: &[u8]) -> (r: Option<Vec<u8>>)
    ensures
        match r {
            Some(w) => is_field_value(v@) && w@ == v@,
            None => !is_field_value(v@),
        },
{
    HeaderValue::from_bytes(v).ok().map(|w| w.as_bytes().to_vec())
}

/// `HeaderMap::append`: one more field, behind those of the same name.
#[verifier::external_body]
pub(crate) fn header_append(h: &mut HeaderMap<HeaderValue>, name: &str, value: &[u8])
    requires
        field_name(name@) == Some(name@),
        is_field_value(value@),
        header_fields(*old(h)).len() < MAX_FIELDS,
    ensures
        header_fields(*final(h)) == appended(header_fields(*old(h)), name@, value@),
{
    h.append(
        HeaderName::from_bytes(name.as_bytes()).unwrap(),
        HeaderValue::from_bytes(value).unwrap(),
    );
}

/// `HeaderMap::insert`: the one field of that name from then on.
#[verifier::external_body]
pub(crate) fn header_insert(h: &mut HeaderMap<HeaderValue>, name: &str, value: &[u8])
    requires
        field_name(name@) == Some(name@),
        is_field_value(value@),
        header_fields(*old(h)).len() < MAX_FIELDS,
    ensures
        header_fields(*final(h)) == replaced(header_fields(*old(h)), name@, value@),
{
    h.insert(
        HeaderName::from_bytes(name.as_bytes()).unwrap(),
        HeaderValue::from_bytes(value).unwrap(),
    );
}

/// The text of the first field called `key`; empty where there is none or it
/// is not visible ASCII.
pub open spec fn field_text(fields: Seq<(Seq<char>, Seq<u8>)>, key: Seq<char>) -> Seq<char> {
    match value_of(fields, key) {
        Some(v) => value_text_or_empty(v),
        None => Seq::empty(),
    }
}

/// Reads the first field called `key` as text.
pub fn header_text(h: &HeaderMap<HeaderValue>, key: &str) -> (r: String)
    ensures
        r@ == field_text(header_fields(*h), key@),
{
    match header_get(h, key) {
        Some(v) => match text_value(&v) {
            Some(s) => s,
            None => String::new(),
        },
        None => String::new(),
    }
}

// ---------------------------------------------------------------------------
// Laws
// ---------------------------------------------------------------------------

/// Capitals in a name do not matter.
pub proof fn law_names_are_read_in_capitals_or_not(
    fs: Seq<(Seq<char>, Seq<u8>)>,
    a: Seq<char>,
    b: Seq<char>,
)
    requires
        a.len() == b.len(),
        forall|j: int|
            0 <= j < a.len() ==> #[trigger] a[j] == b[j] || ('A' <= a[j] <= 'Z' && b[j] as u32
                == a[j] as u32 + 32),
    ensures
        value_of(fs, a) == value_of(fs, b),
        field_text(fs, a) == field_text(fs, b),
{
    assert forall|j: int| 0 <= j < a.len() implies is_name_char(#[trigger] a[j]) == is_name_char(
        b[j],
    ) && small(a[j]) == small(b[j]) by {
        if a[j] != b[j] {
            lemma_small(a[j], b[j]);
        }
    }
    assert(a.map_values(|c: char| small(c)) =~= b.map_values(|c: char| small(c)));
    if forall|i: int| 0 <= i < a.len() ==> is_name_char(#[trigger] a[i]) {
        assert forall|i: int| 0 <= i < b.len() implies is_name_char(#[trigger] b[i]) by {
            assert(is_name_char(a[i]));
        }
    }
    if forall|i: int| 0 <= i < b.len() ==> is_name_char(#[trigger] b[i]) {
        assert forall|i: int| 0 <= i < a.len() implies is_name_char(#[trigger] a[i]) by {
            assert(is_name_char(b[i]));
        }
    }
}

proof fn lemma_small(c: char, d: char)
    requires
        'A' <= c <= 'Z',
        d as u32 == c as u32 + 32,
    ensures
        is_name_char(c) && is_name_char(d),
        small(c) == d && small(d) == d,
{
}

/// The first field of a name is the one that is read; where there is none,
/// nothing is.
pub proof fn law_first_field_of_a_name_is_read(
    fs: Seq<(Seq<char>, Seq<u8>)>,
    key: Seq<char>,
    i: int,
)
    requires
        1 <= key.len() <= 65535,
        forall|j: int|
            0 <= j < key.len() ==> 'a' <= #[trigger] key[j] <= 'z' || '0' <= key[j] <= '9' || key[j]
                == '-',
        0 <= i <= fs.len(),
        forall|j: int| 0 <= j < i ==> (#[trigger] fs[j]).0 != key,
    ensures
        i < fs.len() && fs[i].0 == key ==> value_of(fs, key) == Some(fs[i].1),
        i == fs.len() ==> value_of(fs, key) is None && field_text(fs, key) == Seq::<char>::empty(),
{
    assert forall|j: int| 0 <= j < key.len() implies is_name_char(#[trigger] key[j]) && small(
        key[j],
    ) == key[j] by {}
    assert(key.map_values(|c: char| small(c)) =~= key);
    lemma_first_value(fs, key, i);
}

proof fn lemma_first_value(fs: Seq<(Seq<char>, Seq<u8>)>, name: Seq<char>, i: int)
    requires
        0 <= i <= fs.len(),
        forall|j: int| 0 <= j < i ==> (#[trigger] fs[j]).0 != name,
    ensures
        i < fs.len() && fs[i].0 == name ==> first_value(fs, name) == Some(fs[i].1),
        i == fs.len() ==> first_value(fs, name) is None,
    decreases fs.len(),
{
    if fs.len() > 0 && i > 0 {
        assert(fs[0].0 != name);
        let rest = fs.skip(1);
        assert forall|j: int| 0 <= j < i - 1 implies (#[trigger] rest[j]).0 != name by {
            assert(rest[j] == fs[j + 1]);
        }
        lemma_first_value(rest, name, i - 1);
    }
}

/// A field value is read as text byte by byte, where every byte is visible
/// ASCII, a blank or a tab; otherwise there is no text.
pub proof fn law_values_are_read_byte_by_byte(v: Seq<u8>, i: int)
    requires
        0 <= i < v.len(),
    ensures
        (forall|j: int| 0 <= j < v.len() ==> 32 <= #[trigger] v[j] <= 126 || v[j] == 9)
            ==> value_text(v) is Some && value_text(v)->0.len() == v.len() && value_text(v)->0[i]
            as u32 == v[i] as u32 && value_text_or_empty(v) == value_text(v)->0,
        !(32 <= v[i] <= 126 || v[i] == 9) ==> value_text(v) is None && value_text_or_empty(v)
            == Seq::<char>::empty(),
{
    if !(32 <= v[i] <= 126 || v[i] == 9) {
        assert(!is_visible(v[i]));
    }
    if forall|j: int| 0 <= j < v.len() ==> 32 <= #[trigger] v[j] <= 126 || v[j] == 9 {
        assert forall|j: int| 0 <= j < v.len() implies is_visible(#[trigger] v[j]) by {}
    }
}

/// The text of a field is that of the value that its name leads to.
pub proof fn law_field_text_is_the_text_of_the_value(
    fs: Seq<(Seq<char>, Seq<u8>)>,
    key: Seq<char>,
)
    ensures
        value_of(fs, key) is Some && value_text(value_of(fs, key)->0) is Some ==> field_text(
            fs,
            key,
        ) == value_text(value_of(fs, key)->0)->0,
        value_of(fs, key) is Some && value_text(value_of(fs, key)->0) is None ==> field_text(
            fs,
            key,
        ) == Seq::<char>::empty(),
        value_of(fs, key) is None ==> field_text(fs, key) == Seq::<char>::empty(),
{
}

/// A further field stands behind all others of its name, and the others keep
/// their order.
pub proof fn law_further_fields_stand_behind_their_name(
    fs: Seq<(Seq<char>, Seq<u8>)>,
    name: Seq<char>,
    value: Seq<u8>,
) -> (at: int)
    ensures
        0 <= at <= fs.len(),
        appended(fs, name, value) == fs.insert(at, (name, value)),
        forall|j: int| at <= j < fs.len() ==> (#[trigger] fs[j]).0 != name,
        at < fs.len() ==> at > 0 && fs[at - 1].0 == name,
{
    lemma_last_of(fs, name);
    lemma_behind_the_last(fs, name);
    append_at(fs, name)
}

proof fn lemma_behind_the_last(fs: Seq<(Seq<char>, Seq<u8>)>, name: Seq<char>)
    ensures
        last_of(fs, name) >= 0 ==> fs[last_of(fs, name)].0 == name,
        forall|j: int| last_of(fs, name) < j < fs.len() ==> (#[trigger] fs[j]).0 != name,
    decreases fs.len(),
{
    if fs.len() > 0 && fs.last().0 != name {
        let init = fs.drop_last();
        lemma_last_of(init, name);
        lemma_behind_the_last(init, name);
        assert forall|j: int| last_of(fs, name) < j < fs.len() implies (#[trigger] fs[j]).0
            != name by {
            if j < init.len() {
                assert(init[j] == fs[j]);
            }
        }
    }
}

/// The last field of a name is found where it stands.
pub proof fn law_last_field_of_a_name_is_found(
    fs: Seq<(Seq<char>, Seq<u8>)>,
    name: Seq<char>,
    i: int,
)
    requires
        -1 <= i < fs.len(),
        i >= 0 ==> fs[i].0 == name,
        forall|j: int| i < j < fs.len() ==> (#[trigger] fs[j]).0 != name,
    ensures
        last_of(fs, name) == i,
{
    lemma_last_of(fs, name);
    lemma_behind_the_last(fs, name);
    let l = last_of(fs, name);
    if l > i {
        assert(fs[l].0 == name);
    }
    if l < i {
        assert(fs[i].0 == name);
    }
}

/// A replacement leaves the fields of all other names, and nothing else under
/// its own.
pub proof fn law_replacing_leaves_other_names_alone(
    fs: Seq<(Seq<char>, Seq<u8>)>,
    name: Seq<char>,
    value: Seq<u8>,
    f: (Seq<char>, Seq<u8>),
)
    ensures
        replaced(fs, name, value).contains(f) <==> f == (name, value) || (fs.contains(f) && f.0
            != name),
        without(fs, name).contains(f) <==> fs.contains(f) && f.0 != name,
    decreases fs.len(),
{
    let r = replaced(fs, name, value);
    let w = without(fs, name);
    if fs.len() == 0 {
        assert(r[0] == (name, value));
    } else {
        let rest = fs.skip(1);
        law_replacing_leaves_other_names_alone(rest, name, value, f);
        assert(fs =~= seq![fs[0]] + rest);
        lemma_front(fs[0], rest, f);
        lemma_front((name, value), without(rest, name), f);
        lemma_front(fs[0], without(rest, name), f);
        lemma_front(fs[0], replaced(rest, name, value), f);
    }
}

proof fn lemma_front(
    a: (Seq<char>, Seq<u8>),
    s: Seq<(Seq<char>, Seq<u8>)>,
    f: (Seq<char>, Seq<u8>),
)
    ensures
        (seq![a] + s).contains(f) <==> f == a || s.contains(f),
{
    let t = seq![a] + s;
    assert(t[0] == a);
    if s.contains(f) {
        let i = choose|i: int| 0 <= i < s.len() && s[i] == f;
        assert(t[i + 1] == f);
    }
    if t.contains(f) {
        let i = choose|i: int| 0 <= i < t.len() && t[i] == f;
        if i > 0 {
            assert(s[i - 1] == f);
        }
    }
}

} // verus!
