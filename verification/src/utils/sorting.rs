//! The order of provider names and the stable arrangement of a list of names
//! in that order.
//!
//! Names are ordered as their UTF-8 bytes are, byte by byte, a proper prefix
//! before its extensions.

use vstd::prelude::*;
use vstd::relations::*;
use vstd::seq_lib::*;
use vstd::string::*;
use vstd::utf8::*;

verus! {

/// Lexicographic order on byte sequences.
pub open spec fn bytes_le(a: Seq<u8>, b: Seq<u8>) -> bool
    decreases a.len(),
{
    if a.len() == 0 {
        true
    } else if b.len() == 0 {
        false
    } else if a[0] != b[0] {
        a[0] < b[0]
    } else {
        bytes_le(a.skip(1), b.skip(1))
    }
}

/// The order of names.
pub open spec fn name_le(a: Seq<char>, b: Seq<char>) -> bool {
    bytes_le(encode_utf8(a), encode_utf8(b))
}

/// The order of names, as a relation that can be handed to a lemma.
pub open spec fn name_order() -> spec_fn(Seq<char>, Seq<char>) -> bool {
    |a: Seq<char>, b: Seq<char>| name_le(a, b)
}

/// The names of a list of strings.
pub open spec fn views(strings: Seq<String>) -> Seq<Seq<char>> {
    strings.map_values(|s: String| s@)
}

/// The names in ascending order.
pub open spec fn sorted_names(names: Seq<Seq<char>>) -> Seq<Seq<char>> {
    names.sort_by(name_order())
}

/// The names at the given positions, in the order of the positions.
pub open spec fn arranged(names: Seq<Seq<char>>, order: Seq<usize>) -> Seq<Seq<char>> {
    Seq::new(order.len(), |k: int| names[order[k] as int])
}

/// Whether position `i` occurs in `order`.
pub open spec fn lists_position(order: Seq<usize>, i: int) -> bool {
    exists|k: int| 0 <= k < order.len() && #[trigger] order[k] == i
}

/// Whether `order` lists every position of `names` once, by ascending name,
/// positions with the same name in ascending order.
pub open spec fn is_stable_order(names: Seq<Seq<char>>, order: Seq<usize>) -> bool {
    &&& order.len() == names.len()
    &&& forall|k: int| 0 <= k < order.len() ==> #[trigger] order[k] < names.len()
    &&& forall|i: int| 0 <= i < names.len() ==> #[trigger] lists_position(order, i)
    &&& forall|k: int, l: int|
        0 <= k < l < order.len() ==> comes_before(
            names,
            #[trigger] order[k] as int,
            #[trigger] order[l] as int,
        )
}

/// Whether position `i` of `names` is arranged before position `j`: its name
/// is smaller, or the names are equal and `i` is the earlier position.
pub open spec fn comes_before(names: Seq<Seq<char>>, i: int, j: int) -> bool {
    name_le(names[i], names[j]) && (names[i] == names[j] ==> i < j)
}

proof fn lemma_bytes_le_reflexive(a: Seq<u8>)
    ensures
        bytes_le(a, a),
    decreases a.len(),
{
    if a.len() > 0 {
        lemma_bytes_le_reflexive(a.skip(1));
    }
}

proof fn lemma_bytes_le_total(a: Seq<u8>, b: Seq<u8>)
    ensures
        bytes_le(a, b) || bytes_le(b, a),
    decreases a.len(),
{
    if a.len() > 0 && b.len() > 0 && a[0] == b[0] {
        lemma_bytes_le_total(a.skip(1), b.skip(1));
    }
}

proof fn lemma_bytes_le_antisymmetric(a: Seq<u8>, b: Seq<u8>)
    requires
        bytes_le(a, b),
        bytes_le(b, a),
    ensures
        a == b,
    decreases a.len(),
{
    if a.len() > 0 {
        lemma_bytes_le_antisymmetric(a.skip(1), b.skip(1));
        assert(a =~= seq![a[0]] + a.skip(1));
        assert(b =~= seq![b[0]] + b.skip(1));
    } else {
        assert(a =~= b);
    }
}

proof fn lemma_bytes_le_transitive(a: Seq<u8>, b: Seq<u8>, c: Seq<u8>)
    requires
        bytes_le(a, b),
        bytes_le(b, c),
    ensures
        bytes_le(a, c),
    decreases a.len(),
{
    if a.len() > 0 && a[0] == b[0] && b[0] == c[0] {
        lemma_bytes_le_transitive(a.skip(1), b.skip(1), c.skip(1));
    }
}

/// The order of names is a total order.
pub proof fn lemma_name_order_total()
    ensures
        total_ordering(name_order()),
{
    let r = name_order();
    assert forall|x: Seq<char>| #[trigger] r(x, x) by {
        lemma_bytes_le_reflexive(encode_utf8(x));
    }
    assert forall|x: Seq<char>, y: Seq<char>| #[trigger] r(x, y) && #[trigger] r(y, x) implies x
        == y by {
        lemma_bytes_le_antisymmetric(encode_utf8(x), encode_utf8(y));
        encode_utf8_decode_utf8(x);
        encode_utf8_decode_utf8(y);
    }
    assert forall|x: Seq<char>, y: Seq<char>, z: Seq<char>| #[trigger]
        r(x, y) && #[trigger] r(y, z) implies r(x, z) by {
        lemma_bytes_le_transitive(encode_utf8(x), encode_utf8(y), encode_utf8(z));
    }
    assert forall|x: Seq<char>, y: Seq<char>| #[trigger] r(x, y) || #[trigger] r(y, x) by {
        lemma_bytes_le_total(encode_utf8(x), encode_utf8(y));
    }
}

/// A list that is in ascending order and holds the same names as another,
/// each as often, is the other in ascending order.
pub proof fn lemma_sorted_names_unique(names: Seq<Seq<char>>, sorted: Seq<Seq<char>>)
    requires
        sorted_by(sorted, name_order()),
        sorted.to_multiset() == names.to_multiset(),
    ensures
        sorted == sorted_names(names),
{
    lemma_name_order_total();
    names.lemma_sort_by_ensures(name_order());
    lemma_sorted_unique(sorted, sorted_names(names), name_order());
}

/// The arrangement of positions that [`comes_before`] describes, as a
/// relation on positions.
pub open spec fn position_order(names: Seq<Seq<char>>) -> spec_fn(usize, usize) -> bool {
    |i: usize, j: usize| i == j || comes_before(names, i as int, j as int)
}

proof fn lemma_position_order_total(names: Seq<Seq<char>>)
    ensures
        total_ordering(position_order(names)),
{
    let r = position_order(names);
    lemma_name_order_total();
    let le = name_order();
    assert forall|x: usize, y: usize| #[trigger] r(x, y) && #[trigger] r(y, x) implies x == y by {
        if x != y {
            assert(le(names[x as int], names[y as int]) && le(names[y as int], names[x as int]));
        }
    }
    assert forall|x: usize, y: usize, z: usize| #[trigger] r(x, y) && #[trigger] r(y, z) implies r(
        x,
        z,
    ) by {
        if x != y && y != z {
            let (a, b, c) = (names[x as int], names[y as int], names[z as int]);
            assert(le(a, b) && le(b, c));
            assert(le(a, c));
            if a == c {
                assert(le(c, b) && le(b, a));
            }
        }
    }
    assert forall|x: usize, y: usize| #[trigger] r(x, y) || #[trigger] r(y, x) by {
        let (a, b) = (names[x as int], names[y as int]);
        assert(le(a, b) || le(b, a));
        assert(le(a, a));
    }
}

proof fn lemma_stable_order_counts(names: Seq<Seq<char>>, order: Seq<usize>, x: usize)
    requires
        is_stable_order(names, order),
    ensures
        order.to_multiset().count(x) == if x < names.len() {
            1nat
        } else {
            0nat
        },
{
    broadcast use group_to_multiset_ensures;

    assert forall|k: int, l: int| 0 <= k < l < order.len() implies order[k] != order[l] by {
        assert(comes_before(names, order[k] as int, order[l] as int));
    }
    assert(order.no_duplicates());
    order.lemma_multiset_has_no_duplicates();
    if x < names.len() {
        assert(lists_position(order, x as int));
        let k = choose|k: int| 0 <= k < order.len() && #[trigger] order[k] == x as int;
        assert(order[k] == x);
        assert(order.contains(x));
        assert(order.to_multiset().contains(x));
    } else {
        assert(!order.contains(x));
    }
}

/// A list of names has one stable order only.
pub proof fn lemma_stable_order_unique(names: Seq<Seq<char>>, a: Seq<usize>, b: Seq<usize>)
    requires
        is_stable_order(names, a),
        is_stable_order(names, b),
    ensures
        a == b,
{
    let r = position_order(names);
    lemma_position_order_total(names);
    assert forall|x: usize| a.to_multiset().count(x) == b.to_multiset().count(x) by {
        lemma_stable_order_counts(names, a, x);
        lemma_stable_order_counts(names, b, x);
    }
    assert(a.to_multiset() =~= b.to_multiset());
    assert forall|k: int, l: int| 0 <= k < l < a.len() implies #[trigger] r(a[k], a[l]) by {
        assert(comes_before(names, a[k] as int, a[l] as int));
    }
    assert forall|k: int, l: int| 0 <= k < l < b.len() implies #[trigger] r(b[k], b[l]) by {
        assert(comes_before(names, b[k] as int, b[l] as int));
    }
    lemma_sorted_unique(a, b, r);
}

/// Whether `a` is at most `b` in the order of names.
pub fn str_le(a: &str, b: &str) -> (r: bool)
    ensures
        r == name_le(a@, b@),
{
    let x = a.as_bytes();
    let y = b.as_bytes();
    let mut i: usize = 0;
    assert(x@.skip(0) =~= x@ && y@.skip(0) =~= y@);
    while i < x.len() && i < y.len()
        invariant
            i <= x.len(),
            i <= y.len(),
            x@ == encode_utf8(a@),
            y@ == encode_utf8(b@),
            bytes_le(x@, y@) == bytes_le(x@.skip(i as int), y@.skip(i as int)),
        decreases x.len() - i,
    {
        proof {
            assert(x@.skip(i as int).skip(1) =~= x@.skip(i + 1));
            assert(y@.skip(i as int).skip(1) =~= y@.skip(i + 1));
            assert(x@.skip(i as int)[0] == x@[i as int]);
            assert(y@.skip(i as int)[0] == y@[i as int]);
        }
        if x[i] != y[i] {
            return x[i] < y[i];
        }
        i += 1;
    }
    i == x.len()
}

proof fn lemma_larger_stays_larger(a: Seq<char>, b: Seq<char>, c: Seq<char>)
    requires
        !name_le(b, a),
        name_le(b, c),
    ensures
        name_le(a, c),
        a != c,
{
    let (x, y, z) = (encode_utf8(a), encode_utf8(b), encode_utf8(c));
    lemma_bytes_le_total(x, z);
    if bytes_le(z, x) {
        lemma_bytes_le_transitive(y, z, x);
    }
}

/// The positions of `names` in ascending order of their names, positions with
/// the same name in the order in which they stand.
pub fn stable_order(names: &Vec<String>) -> (order: Vec<usize>)
    ensures
        is_stable_order(views(names@), order@),
        arranged(views(names@), order@) == sorted_names(views(names@)),
{
    let n = names.len();
    let ghost all = views(names@);
    let mut order: Vec<usize> = Vec::new();
    let mut i: usize = 0;
    assert(arranged(all, order@) =~= all.take(0));
    while i < n
        invariant
            i <= n,
            n == names.len(),
            all == views(names@),
            order.len() == i,
            forall|k: int| 0 <= k < i ==> #[trigger] order[k] < i,
            forall|j: int| 0 <= j < i ==> #[trigger] lists_position(order@, j),
            forall|k: int, l: int|
                0 <= k < l < i ==> comes_before(
                    all,
                    #[trigger] order[k] as int,
                    #[trigger] order[l] as int,
                ),
            arranged(all, order@).to_multiset() == all.take(i as int).to_multiset(),
        decreases n - i,
    {
        let mut p: usize = 0;
        while p < order.len() && str_le(names[order[p]].as_str(), names[i].as_str())
            invariant
                p <= order.len(),
                order.len() == i,
                i < n,
                n == names.len(),
                all == views(names@),
                forall|k: int| 0 <= k < i ==> #[trigger] order[k] < i,
                forall|k: int| 0 <= k < p ==> name_le(all[#[trigger] order[k] as int], all[i as int]),
            decreases order.len() - p,
        {
            p += 1;
        }
        let ghost before = order@;
        order.insert(p, i);
        proof {
            let after = order@;
            assert forall|k: int| 0 <= k < i + 1 implies #[trigger] after[k] < i + 1 by {
                if k < p {
                    assert(after[k] == before[k]);
                } else if k > p {
                    assert(after[k] == before[k - 1]);
                }
            }
            assert forall|j: int| 0 <= j < i + 1 implies #[trigger] lists_position(after, j) by {
                if j == i {
                    assert(after[p as int] == j);
                } else {
                    assert(lists_position(before, j));
                    let k = choose|k: int| 0 <= k < before.len() && #[trigger] before[k] == j;
                    if k < p {
                        assert(after[k] == j);
                    } else {
                        assert(after[k + 1] == j);
                    }
                }
            }
            assert forall|k: int, l: int| 0 <= k < l < i + 1 implies comes_before(
                all,
                #[trigger] after[k] as int,
                #[trigger] after[l] as int,
            ) by {
                let bk = if k < p { k } else { k - 1 };
                let bl = if l < p { l } else { l - 1 };
                if k != p {
                    assert(after[k] == before[bk]);
                }
                if l != p {
                    assert(after[l] == before[bl]);
                }
                if l == p {
                    assert(before[k] < i);
                } else if k == p {
                    assert(before[bl] < i);
                    if bl > p {
                        assert(comes_before(all, before[p as int] as int, before[bl] as int));
                    } else {
                        lemma_bytes_le_reflexive(encode_utf8(all[before[p as int] as int]));
                    }
                    lemma_larger_stays_larger(
                        all[i as int],
                        all[before[p as int] as int],
                        all[before[bl] as int],
                    );
                } else {
                    assert(comes_before(all, before[bk] as int, before[bl] as int));
                }
            }
            assert(arranged(all, after) =~= arranged(all, before).insert(p as int, all[i as int]));
            to_multiset_insert(arranged(all, before), p as int, all[i as int]);
            assert(all.take(i + 1) =~= all.take(i as int).push(all[i as int]));
            to_multiset_build(all.take(i as int), all[i as int]);
        }
        i += 1;
    }
    proof {
        assert(all.take(n as int) =~= all);
        let out = arranged(all, order@);
        assert forall|k: int, l: int| 0 <= k < l < out.len() implies #[trigger] name_order()(
            out[k],
            out[l],
        ) by {
            assert(comes_before(all, order[k] as int, order[l] as int));
        }
        lemma_sorted_names_unique(all, out);
    }
    order
}

/// The names in ascending order.
pub fn sorted_copy(names: &Vec<String>) -> (sorted: Vec<String>)
    ensures
        views(sorted@) == sorted_names(views(names@)),
{
    let order = stable_order(names);
    let n = names.len();
    let ghost all = views(names@);
    let ghost wanted = sorted_names(all);
    let mut sorted: Vec<String> = Vec::with_capacity(n);
    let mut k: usize = 0;
    while k < n
        invariant
            k <= n,
            n == names.len(),
            all == views(names@),
            is_stable_order(all, order@),
            arranged(all, order@) == wanted,
            sorted.len() == k,
            forall|j: int| 0 <= j < k ==> (#[trigger] sorted@[j])@ == wanted[j],
        decreases n - k,
    {
        assert(order@[k as int] < n);
        assert(wanted[k as int] == all[order@[k as int] as int]);
        assert(all[order@[k as int] as int] == names@[order@[k as int] as int]@);
        sorted.push(names[order[k]].clone());
        k += 1;
    }
    assert(views(sorted@) =~= wanted);
    sorted
}

} // verus!
