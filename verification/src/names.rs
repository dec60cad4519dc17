//! Names and their order.

use vstd::prelude::*;
use vstd::string::*;
use vstd::utf8::*;

use crate::order::{law_sorted, law_sorted_ignores_input_order, law_sorted_positions,
    lemma_same_multiset, positions, sorted, sorted_positions, views, weak_order, Ranked};

verus! {

/// Whether the name `a` comes before the name `b`: character by character, by code point, and a
/// name before its own extensions.
pub open spec fn name_before(a: Seq<char>, b: Seq<char>) -> bool
    decreases a.len(),
{
    if b.len() == 0 {
        false
    } else if a.len() == 0 {
        true
    } else if a.first() != b.first() {
        a.first() < b.first()
    } else {
        name_before(a.drop_first(), b.drop_first())
    }
}

/// Whether the name `a` comes before the name `b`.
pub fn comes_before(a: &str, b: &str) -> (r: bool)
    ensures
        r == name_before(a@, b@),
{
    let mut x = a.chars();
    let mut y = b.chars();
    let ghost mut i: int = 0;
    assert(a@.skip(0) =~= a@);
    assert(b@.skip(0) =~= b@);
    loop
        invariant
            0 <= i <= a@.len(),
            i <= b@.len(),
            vstd::std_specs::iter::IteratorSpec::remaining(&x) == a@.skip(i),
            vstd::std_specs::iter::IteratorSpec::remaining(&y) == b@.skip(i),
            name_before(a@, b@) == name_before(a@.skip(i), b@.skip(i)),
        decreases a@.len() - i,
    {
        let c = x.next();
        match y.next() {
            None => {
                return false;
            },
            Some(d) => match c {
                None => {
                    return true;
                },
                Some(c) => {
                    if c != d {
                        return c < d;
                    }
                    assert(a@.skip(i).drop_first() =~= a@.skip(i + 1));
                    assert(b@.skip(i).drop_first() =~= b@.skip(i + 1));
                    proof {
                        i = i + 1;
                    }
                },
            },
        }
    }
}

/// Whether `name` can stand between two slashes of a path: it is not empty and has no slash.
pub open spec fn component(name: Seq<char>) -> bool {
    name.len() > 0 && !name.contains('/')
}

/// Whether `name` can be a name in a registry's store: not empty, and without slash or backslash.
pub open spec fn plain(name: Seq<char>) -> bool {
    component(name) && !name.contains('\\')
}

/// Whether `name` can be the name of an entry of a directory: it can stand between two slashes, and
/// is neither the directory itself nor its parent.
pub open spec fn proper(name: Seq<char>) -> bool {
    component(name) && name != "."@ && name != ".."@
}

/// No name comes before itself.
pub proof fn law_name_before_irreflexive(a: Seq<char>)
    ensures
        !name_before(a, a),
    decreases a.len(),
{
    if a.len() > 0 {
        law_name_before_irreflexive(a.drop_first());
    }
}

/// What comes before a name comes before all that the name comes before.
pub proof fn law_name_before_transitive(a: Seq<char>, b: Seq<char>, c: Seq<char>)
    requires
        name_before(a, b),
        name_before(b, c),
    ensures
        name_before(a, c),
    decreases a.len(),
{
    if a.len() > 0 && a.first() == b.first() && b.first() == c.first() {
        law_name_before_transitive(a.drop_first(), b.drop_first(), c.drop_first());
    }
}

/// Of two different names, one comes before the other.
pub proof fn law_name_before_total(a: Seq<char>, b: Seq<char>)
    ensures
        a == b || name_before(a, b) || name_before(b, a),
    decreases a.len(),
{
    if a.len() == 0 || b.len() == 0 {
        assert(a.len() == 0 && b.len() == 0 ==> a =~= b);
    } else if a.first() == b.first() {
        law_name_before_total(a.drop_first(), b.drop_first());
        if a.drop_first() == b.drop_first() {
            assert(a =~= seq![a.first()] + a.drop_first());
            assert(b =~= seq![b.first()] + b.drop_first());
        }
    }
}

/// `name_before`, as a function.
pub open spec fn by_name() -> spec_fn(Seq<char>, Seq<char>) -> bool {
    |a: Seq<char>, b: Seq<char>| name_before(a, b)
}

/// `names` in order.
pub open spec fn sorted_names(names: Seq<Seq<char>>) -> Seq<Seq<char>> {
    sorted(names, by_name())
}

proof fn lemma_name_weak_order()
    ensures
        weak_order(by_name()),
{
    let ahead = by_name();
    assert forall|x: Seq<char>| !#[trigger] ahead(x, x) by {
        law_name_before_irreflexive(x);
    }
    assert forall|x: Seq<char>, y: Seq<char>, z: Seq<char>| #[trigger]
        ahead(x, y) && #[trigger] ahead(y, z) implies ahead(x, z) by {
        law_name_before_transitive(x, y, z);
    }
    assert forall|x: Seq<char>, y: Seq<char>, z: Seq<char>|
        !#[trigger] ahead(x, y) && !#[trigger] ahead(y, z) implies !ahead(x, z) by {
        law_name_before_total(x, y);
        law_name_before_total(y, z);
        if ahead(x, z) {
            if x == y || y == z {
            } else {
                law_name_before_transitive(x, z, y);
            }
        }
    }
}

impl Ranked for String {
    open spec fn ahead(a: Seq<char>, b: Seq<char>) -> bool {
        name_before(a, b)
    }

    proof fn ahead_weak_order() {
        lemma_name_weak_order();
        assert((|a: Seq<char>, b: Seq<char>| Self::ahead(a, b)) =~= by_name());
    }

    fn is_ahead(&self, other: &Self) -> (r: bool) {
        comes_before(self.as_str(), other.as_str())
    }
}

/// `names` in order.
pub fn sort_names(names: &Vec<String>) -> (r: Vec<String>)
    ensures
        views(r@) == sorted_names(views(names@)),
{
    let order = positions(names.as_slice());
    let ghost all = sorted_names(views(names@));
    proof {
        assert((|a: Seq<char>, b: Seq<char>| String::ahead(a, b)) =~= by_name());
        lemma_name_weak_order();
        law_sorted_positions(views(names@), by_name());
        assert forall|k: int| 0 <= k < order@.len() implies #[trigger] order@[k] < names@.len()
            && all[k] == names@[order@[k] as int]@ by {
            assert(sorted_positions(views(names@), by_name())[k] == order@[k] as int);
        }
    }
    let mut r: Vec<String> = Vec::new();
    let mut k: usize = 0;
    while k < order.len()
        invariant
            k <= order@.len(),
            order@.len() == names@.len(),
            all.len() == names@.len(),
            forall|m: int|
                0 <= m < order@.len() ==> #[trigger] order@[m] < names@.len() && all[m]
                    == names@[order@[m] as int]@,
            views(r@) == all.take(k as int),
        decreases order@.len() - k,
    {
        let ghost before = r@;
        r.push(names[order[k]].clone());
        assert(views(r@) =~= views(before).push(all[k as int]));
        assert(all.take(k + 1) =~= all.take(k as int).push(all[k as int]));
        k = k + 1;
    }
    assert(all.take(k as int) =~= all);
    r
}

/// Sorted names are in order, and are the same names as before.
pub proof fn law_sorted_names(names: Seq<Seq<char>>)
    ensures
        sorted_names(names).len() == names.len(),
        sorted_names(names).to_multiset() == names.to_multiset(),
        forall|k: int, m: int|
            0 <= k < m < names.len() ==> #[trigger] sorted_names(names)[k]
                == #[trigger] sorted_names(names)[m] || name_before(
                sorted_names(names)[k],
                sorted_names(names)[m],
            ),
{
    lemma_name_weak_order();
    law_sorted(names, by_name());
    let r = sorted_names(names);
    assert forall|k: int, m: int| 0 <= k < m < names.len() implies #[trigger] r[k]
        == #[trigger] r[m] || name_before(r[k], r[m]) by {
        assert(!by_name()(r[m], r[k]));
        law_name_before_total(r[k], r[m]);
    }
}

/// Sorted names of which no two are equal are strictly ascending.
pub proof fn law_distinct_names_ascend(names: Seq<Seq<char>>)
    requires
        names.no_duplicates(),
    ensures
        sorted_names(names).no_duplicates(),
        forall|k: int, m: int|
            0 <= k < m < names.len() ==> name_before(
                #[trigger] sorted_names(names)[k],
                #[trigger] sorted_names(names)[m],
            ),
{
    let r = sorted_names(names);
    law_sorted_names(names);
    names.lemma_multiset_has_no_duplicates();
    r.lemma_multiset_has_no_duplicates_conv();
    assert forall|k: int, m: int| 0 <= k < m < names.len() implies name_before(
        #[trigger] r[k],
        #[trigger] r[m],
    ) by {
        assert(r[k] != r[m]);
    }
}

/// The same names, each once, are sorted into the same list.
pub proof fn law_same_names_same_list(a: Seq<Seq<char>>, b: Seq<Seq<char>>)
    requires
        a.no_duplicates(),
        b.no_duplicates(),
        forall|name: Seq<char>| #[trigger] a.contains(name) <==> #[trigger] b.contains(name),
    ensures
        sorted_names(a) == sorted_names(b),
{
    lemma_name_weak_order();
    lemma_same_multiset(a, b);
    assert forall|i: int, j: int|
        0 <= i < a.len() && 0 <= j < a.len() && !by_name()(#[trigger] a[i], #[trigger] a[j])
            && !by_name()(a[j], a[i]) implies a[i] == a[j] by {
        law_name_before_total(a[i], a[j]);
    }
    law_sorted_ignores_input_order(a, b, by_name());
}

/// Whether the bytes `a` come before the bytes `b`: byte by byte, and what is shorter before its
/// own extensions.
pub open spec fn bytes_before(a: Seq<u8>, b: Seq<u8>) -> bool
    decreases a.len(),
{
    if b.len() == 0 {
        false
    } else if a.len() == 0 {
        true
    } else if a.first() != b.first() {
        a.first() < b.first()
    } else {
        bytes_before(a.drop_first(), b.drop_first())
    }
}

proof fn lemma_bytes_before_prefix(p: Seq<u8>, x: Seq<u8>, y: Seq<u8>)
    ensures
        bytes_before(p + x, p + y) == bytes_before(x, y),
    decreases p.len(),
{
    if p.len() == 0 {
        assert(p + x =~= x);
        assert(p + y =~= y);
    } else {
        lemma_bytes_before_prefix(p.drop_first(), x, y);
        assert((p + x).drop_first() =~= p.drop_first() + x);
        assert((p + y).drop_first() =~= p.drop_first() + y);
    }
}

/// Whether `u` and `v` differ at a place that both have, and `u` has the smaller byte there.
spec fn parts_at(u: Seq<u8>, v: Seq<u8>, k: int) -> bool {
    &&& 0 <= k < u.len()
    &&& k < v.len()
    &&& u[k] < v[k]
    &&& u.take(k) == v.take(k)
}

proof fn lemma_parted(u: Seq<u8>, v: Seq<u8>, k: int, x: Seq<u8>, y: Seq<u8>)
    requires
        parts_at(u, v, k),
    ensures
        bytes_before(u + x, v + y),
        !bytes_before(v + y, u + x),
{
    let p = u.take(k);
    assert(u + x =~= p + (u.skip(k) + x));
    assert(v + y =~= p + (v.skip(k) + y)) by {
        assert(v =~= v.take(k) + v.skip(k));
    }
    lemma_bytes_before_prefix(p, u.skip(k) + x, v.skip(k) + y);
    lemma_bytes_before_prefix(p, v.skip(k) + y, u.skip(k) + x);
}

proof fn lemma_scalar_order(c: u32, d: u32) -> (k: int)
    requires
        is_scalar(c),
        is_scalar(d),
        c < d,
    ensures
        parts_at(encode_scalar(c), encode_scalar(d), k),
{
    let (u, v) = (encode_scalar(c), encode_scalar(d));
    assert(has_width_1_encoding(c) ==> leading_byte_width_1(c) < 0x80) by (bit_vector);
    assert(0xC0 <= leading_byte_width_2(c) < 0xE0) by (bit_vector);
    assert(0xE0 <= leading_byte_width_3(c) < 0xF0) by (bit_vector);
    assert(0xC0 <= leading_byte_width_2(d) < 0xE0) by (bit_vector);
    assert(0xE0 <= leading_byte_width_3(d) < 0xF0) by (bit_vector);
    assert(0xF0 <= leading_byte_width_4(d)) by (bit_vector);
    assert(has_width_1_encoding(d) && c < d ==> leading_byte_width_1(c) < leading_byte_width_1(d))
        by (bit_vector);
    assert(has_width_2_encoding(c) && has_width_2_encoding(d) && c < d ==> leading_byte_width_2(c)
        < leading_byte_width_2(d) || (leading_byte_width_2(c) == leading_byte_width_2(d)
        && last_continuation_byte(c) < last_continuation_byte(d))) by (bit_vector);
    assert(has_width_3_encoding(c) && has_width_3_encoding(d) && c < d ==> leading_byte_width_3(c)
        < leading_byte_width_3(d) || (leading_byte_width_3(c) == leading_byte_width_3(d) && (
    second_last_continuation_byte(c) < second_last_continuation_byte(d) || (
    second_last_continuation_byte(c) == second_last_continuation_byte(d) && last_continuation_byte(
        c,
    ) < last_continuation_byte(d))))) by (bit_vector);
    assert(has_width_4_encoding(c) && has_width_4_encoding(d) && c < d ==> leading_byte_width_4(c)
        < leading_byte_width_4(d) || (leading_byte_width_4(c) == leading_byte_width_4(d) && (
    third_last_continuation_byte(c) < third_last_continuation_byte(d) || (
    third_last_continuation_byte(c) == third_last_continuation_byte(d) && (
    second_last_continuation_byte(c) < second_last_continuation_byte(d) || (
    second_last_continuation_byte(c) == second_last_continuation_byte(d) && last_continuation_byte(
        c,
    ) < last_continuation_byte(d))))))) by (bit_vector);
    let k: int = if u[0] < v[0] {
        0
    } else if u[1] < v[1] {
        1
    } else if u[2] < v[2] {
        2
    } else {
        3
    };
    assert(u.take(k) =~= v.take(k));
    k
}

proof fn lemma_char_order(c: char, d: char, x: Seq<u8>, y: Seq<u8>)
    requires
        c < d,
    ensures
        bytes_before(encode_scalar(c as u32) + x, encode_scalar(d as u32) + y),
        !bytes_before(encode_scalar(d as u32) + y, encode_scalar(c as u32) + x),
{
    let k = lemma_scalar_order(c as u32, d as u32);
    lemma_parted(encode_scalar(c as u32), encode_scalar(d as u32), k, x, y);
}

/// The order of names is the order of their bytes in UTF-8.
pub proof fn law_name_order_is_byte_order(a: Seq<char>, b: Seq<char>)
    ensures
        name_before(a, b) == bytes_before(encode_utf8(a), encode_utf8(b)),
    decreases a.len(),
{
    if a.len() == 0 || b.len() == 0 {
        assert(a.len() > 0 ==> encode_utf8(a).len() >= encode_scalar(a[0] as u32).len() > 0);
        assert(b.len() > 0 ==> encode_utf8(b).len() >= encode_scalar(b[0] as u32).len() > 0);
    } else {
        let (x, y) = (encode_utf8(a.drop_first()), encode_utf8(b.drop_first()));
        if a[0] == b[0] {
            law_name_order_is_byte_order(a.drop_first(), b.drop_first());
            lemma_bytes_before_prefix(encode_scalar(a[0] as u32), x, y);
        } else if a[0] < b[0] {
            lemma_char_order(a[0], b[0], x, y);
        } else {
            lemma_char_order(b[0], a[0], y, x);
        }
    }
}

/// A name comes before another if and only if, where the two first differ, it has the smaller
/// character or is at its end.
pub proof fn law_first_difference_decides(a: Seq<char>, b: Seq<char>)
    ensures
        name_before(a, b) <==> exists|k: int|
            #![trigger a.take(k)]
            {
                &&& 0 <= k <= a.len()
                &&& k < b.len()
                &&& a.take(k) == b.take(k)
                &&& k == a.len() || a[k] < b[k]
            },
    decreases a.len(),
{
    if a.len() == 0 || b.len() == 0 {
        assert(a.take(0) =~= b.take(0));
    } else if a[0] != b[0] {
        assert(a.take(0) =~= b.take(0));
        assert forall|k: int| 0 < k <= a.len() && k < b.len() implies #[trigger] a.take(k)
            != b.take(k) by {
            assert(a.take(k)[0] == a[0] && b.take(k)[0] == b[0]);
        }
    } else {
        let (x, y) = (a.drop_first(), b.drop_first());
        law_first_difference_decides(x, y);
        if name_before(x, y) {
            let k = choose|k: int|
                #![trigger x.take(k)]
                {
                    &&& 0 <= k <= x.len()
                    &&& k < y.len()
                    &&& x.take(k) == y.take(k)
                    &&& k == x.len() || x[k] < y[k]
                };
            assert(a.take(k + 1) =~= seq![a[0]] + x.take(k));
            assert(b.take(k + 1) =~= seq![b[0]] + y.take(k));
        }
        if exists|k: int|
            #![trigger a.take(k)]
            {
                &&& 0 <= k <= a.len()
                &&& k < b.len()
                &&& a.take(k) == b.take(k)
                &&& k == a.len() || a[k] < b[k]
            } {
            let k = choose|k: int|
                #![trigger a.take(k)]
                {
                    &&& 0 <= k <= a.len()
                    &&& k < b.len()
                    &&& a.take(k) == b.take(k)
                    &&& k == a.len() || a[k] < b[k]
                };
            assert(k > 0);
            assert(x.take(k - 1) =~= a.take(k).drop_first());
            assert(y.take(k - 1) =~= b.take(k).drop_first());
        }
    }
}

} // verus!
