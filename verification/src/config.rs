//! The settings of a collector.
use crate::metric::{copy_dimensions, dimension_views, Dimension, PairView};
use crate::time::Resolution;
use vstd::prelude::*;
use vstd::utf8::{encode_utf8, encode_utf8_decode_utf8};

verus! {

/// The settings of a collector: the dimensions that every metric gets, in the order of their names,
/// and the period that metrics are collected over.
#[derive(Debug)]
pub struct CollectorConfig {
    default_dimensions: Vec<Dimension>,
    storage_resolution: Resolution,
}

/// Whether the bytes of `a` from `k` on come before those of `b` in lexicographic order.
pub open spec fn bytes_precede(a: Seq<u8>, b: Seq<u8>, k: int) -> bool
    decreases b.len() - k,
{
    if k >= b.len() {
        false
    } else if k >= a.len() {
        true
    } else if a[k] != b[k] {
        a[k] < b[k]
    } else {
        bytes_precede(a, b, k + 1)
    }
}

/// Whether a text comes before another, in the order of strings: by their bytes.
pub open spec fn precedes(a: Seq<char>, b: Seq<char>) -> bool {
    bytes_precede(encode_utf8(a), encode_utf8(b), 0)
}

/// Whether each name comes before all later ones; so none occurs twice.
pub open spec fn in_order(dimensions: Seq<PairView>) -> bool {
    forall|i: int, j: int|
        0 <= i < j < dimensions.len() ==> precedes((#[trigger] dimensions[i]).name, (#[trigger] dimensions[j]).name)
}

/// The value that the last entry of a name gives to it.
pub open spec fn value_of(entries: Seq<PairView>, name: Seq<char>) -> Option<Seq<char>>
    decreases entries.len(),
{
    if entries.len() == 0 {
        None
    } else if entries.last().name == name {
        Some(entries.last().value)
    } else {
        value_of(entries.drop_last(), name)
    }
}

proof fn lemma_bytes_transitive(a: Seq<u8>, b: Seq<u8>, c: Seq<u8>, k: int)
    requires
        0 <= k,
        bytes_precede(a, b, k),
        bytes_precede(b, c, k),
    ensures
        bytes_precede(a, c, k),
    decreases c.len() - k,
{
    if k < c.len() && k < a.len() && k < b.len() && a[k] == b[k] && b[k] == c[k] {
        lemma_bytes_transitive(a, b, c, k + 1);
    }
}

proof fn lemma_bytes_total(a: Seq<u8>, b: Seq<u8>, k: int)
    requires
        0 <= k,
        k <= a.len(),
        k <= b.len(),
        a.take(k) == b.take(k),
    ensures
        bytes_precede(a, b, k) || bytes_precede(b, a, k) || a == b,
        !(bytes_precede(a, b, k) && bytes_precede(b, a, k)),
        a == b ==> !bytes_precede(a, b, k),
    decreases b.len() - k,
{
    if k < a.len() && k < b.len() && a[k] == b[k] {
        assert(a.take(k + 1) =~= a.take(k).push(a[k]));
        assert(b.take(k + 1) =~= b.take(k).push(b[k]));
        lemma_bytes_total(a, b, k + 1);
    } else if k == a.len() && k == b.len() {
        assert(a.take(k) =~= a);
        assert(b.take(k) =~= b);
    }
}

/// The order of texts is a strict total order.
pub proof fn law_order_of_texts(a: Seq<char>, b: Seq<char>, c: Seq<char>)
    ensures
        !precedes(a, a),
        precedes(a, b) || precedes(b, a) || a == b,
        !(precedes(a, b) && precedes(b, a)),
        precedes(a, b) && precedes(b, c) ==> precedes(a, c),
{
    let (x, y, z) = (encode_utf8(a), encode_utf8(b), encode_utf8(c));
    encode_utf8_decode_utf8(a);
    encode_utf8_decode_utf8(b);
    assert(x.take(0) =~= y.take(0));
    lemma_bytes_total(x, x, 0);
    lemma_bytes_total(x, y, 0);
    if precedes(a, b) && precedes(b, c) {
        lemma_bytes_transitive(x, y, z, 0);
    }
}

/// Bytes that come first are fewer, with all of them the same, or smaller at the first difference.
proof fn lemma_bytes_precede(a: Seq<u8>, b: Seq<u8>, k: int)
    requires
        0 <= k <= a.len(),
        k <= b.len(),
        a.take(k) == b.take(k),
    ensures
        bytes_precede(a, b, k) <==> exists|n: int|
            k <= n <= a.len() && n < b.len() && #[trigger] a.take(n) == b.take(n) && (n == a.len() || a[n] < b[n]),
    decreases b.len() - k,
{
    if k < b.len() && k < a.len() && a[k] == b[k] {
        assert(a.take(k + 1) =~= a.take(k).push(a[k]));
        assert(b.take(k + 1) =~= b.take(k).push(b[k]));
        lemma_bytes_precede(a, b, k + 1);
    } else if k < b.len() && k < a.len() {
        assert forall|n: int| k < n <= a.len() && n < b.len() implies #[trigger] a.take(n) != b.take(n) by {
            assert(a.take(n)[k] == a[k] && b.take(n)[k] == b[k]);
        }
    }
}

/// A text comes before another if and only if its UTF-8 bytes start the other's, which has more, or
/// its byte is the smaller one where they first differ.
pub proof fn law_texts_are_ordered_by_bytes(a: Seq<char>, b: Seq<char>)
    ensures
        precedes(a, b) <==> exists|n: int|
            {
                &&& 0 <= n <= encode_utf8(a).len()
                &&& n < encode_utf8(b).len()
                &&& #[trigger] encode_utf8(a).take(n) == encode_utf8(b).take(n)
                &&& n == encode_utf8(a).len() || encode_utf8(a)[n] < encode_utf8(b)[n]
            },
{
    let (x, y) = (encode_utf8(a), encode_utf8(b));
    assert(x.take(0) =~= y.take(0));
    lemma_bytes_precede(x, y, 0);
}

/// The dimensions of valid settings come in the order of the bytes of their names, and no name occurs
/// twice.
pub proof fn law_default_dimensions_are_ordered(config: CollectorConfig, i: int, j: int)
    requires
        config.is_valid(),
        0 <= i < j < config.dimensions().len(),
    ensures
        ({
            let first = encode_utf8(config.dimensions()[i].name);
            let second = encode_utf8(config.dimensions()[j].name);
            exists|n: int|
                {
                    &&& 0 <= n <= first.len()
                    &&& n < second.len()
                    &&& #[trigger] first.take(n) == second.take(n)
                    &&& n == first.len() || first[n] < second[n]
                }
        }),
        config.dimensions()[i].name != config.dimensions()[j].name,
{
    let (first, second) = (config.dimensions()[i].name, config.dimensions()[j].name);
    assert(precedes(first, second));
    law_texts_are_ordered_by_bytes(first, second);
    law_order_of_texts(first, first, first);
}

/// The value of a name is that of the last entry with the name; without such an entry it has none.
pub proof fn law_last_entry_gives_the_value(entries: Seq<PairView>, name: Seq<char>, i: int)
    ensures
        0 <= i < entries.len() && entries[i].name == name && (forall|j: int|
            i < j < entries.len() ==> (#[trigger] entries[j]).name != name) ==> value_of(entries, name) == Some(
            entries[i].value,
        ),
        (forall|j: int| 0 <= j < entries.len() ==> (#[trigger] entries[j]).name != name) ==> value_of(entries, name)
            is None,
    decreases entries.len(),
{
    if entries.len() > 0 {
        let init = entries.drop_last();
        assert(entries[entries.len() - 1] == entries.last());
        law_last_entry_gives_the_value(init, name, i);
        assert forall|j: int| 0 <= j < init.len() implies #[trigger] init[j] == entries[j] by {}
        if entries.last().name != name {
            if forall|j: int| 0 <= j < entries.len() ==> (#[trigger] entries[j]).name != name {
                assert(forall|j: int| 0 <= j < init.len() ==> (#[trigger] init[j]).name != name);
            }
            if 0 <= i < init.len() && (forall|j: int| i < j < entries.len() ==> (#[trigger] entries[j]).name != name) {
                assert forall|j: int| i < j < init.len() implies (#[trigger] init[j]).name != name by {
                    assert(entries[j].name != name);
                }
            }
        }
    }
}

/// Whether a string comes before another.
fn string_precedes(a: &String, b: &String) -> (less: bool)
    ensures
        less == precedes(a@, b@),
{
    let x = a.as_str().as_bytes();
    let y = b.as_str().as_bytes();
    let mut k: usize = 0;
    while k < x.len() && k < y.len()
        invariant
            x@ == encode_utf8(a@),
            y@ == encode_utf8(b@),
            0 <= k <= x@.len(),
            k <= y@.len(),
            bytes_precede(x@, y@, 0) == bytes_precede(x@, y@, k as int),
        decreases x.len() - k,
    {
        if x[k] != y[k] {
            return x[k] < y[k];
        }
        k = k + 1;
    }
    k < y.len()
}

/// A name has a value if and only if an entry has the name, and then it is the value of such an entry.
proof fn lemma_value_of(entries: Seq<PairView>, name: Seq<char>)
    ensures
        value_of(entries, name) is None <==> forall|i: int|
            0 <= i < entries.len() ==> (#[trigger] entries[i]).name != name,
        value_of(entries, name) matches Some(value) ==> exists|i: int|
            0 <= i < entries.len() && (#[trigger] entries[i]).name == name && entries[i].value == value,
    decreases entries.len(),
{
    if entries.len() > 0 && entries.last().name != name {
        lemma_value_of(entries.drop_last(), name);
        assert forall|i: int| 0 <= i < entries.len() - 1 implies #[trigger] entries[i]
            == entries.drop_last()[i] by {}
        if value_of(entries, name) is Some {
            let i = choose|i: int|
                0 <= i < entries.len() - 1 && (#[trigger] entries.drop_last()[i]).name == name
                    && entries.drop_last()[i].value == value_of(entries, name)->0;
            assert(entries[i].name == name);
        } else {
            assert forall|i: int| 0 <= i < entries.len() implies (#[trigger] entries[i]).name != name by {
                if i < entries.len() - 1 {
                    assert(entries.drop_last()[i].name != name);
                }
            }
        }
    } else if entries.len() > 0 {
        assert(entries[entries.len() - 1].name == name);
    }
}

/// The value of a name in order is that of the entry at which it stands.
proof fn lemma_value_at(entries: Seq<PairView>, i: int)
    requires
        in_order(entries),
        0 <= i < entries.len(),
    ensures
        value_of(entries, entries[i].name) == Some(entries[i].value),
{
    let name = entries[i].name;
    lemma_value_of(entries, name);
    assert(value_of(entries, name) is Some);
    let j = choose|j: int|
        0 <= j < entries.len() && (#[trigger] entries[j]).name == name && entries[j].value == value_of(entries, name)->0;
    law_order_of_texts(name, name, name);
    if i < j {
        assert(precedes(entries[i].name, entries[j].name));
    } else if j < i {
        assert(precedes(entries[j].name, entries[i].name));
    }
}

/// Gives a name a value: in place of the one that it had, or at its place in the order.
fn set_value(dimensions: &mut Vec<Dimension>, entry: Dimension)
    requires
        in_order(dimension_views(old(dimensions)@)),
    ensures
        in_order(dimension_views(final(dimensions)@)),
        forall|name: Seq<char>| #[trigger]
            value_of(dimension_views(final(dimensions)@), name) == if name == entry.name@ {
                Some(entry.value@)
            } else {
                value_of(dimension_views(old(dimensions)@), name)
            },
{
    let ghost before = dimension_views(dimensions@);
    let ghost added = entry@;
    let mut place: usize = 0;
    while place < dimensions.len() && string_precedes(&dimensions[place].name, &entry.name)
        invariant
            place <= dimensions@.len(),
            before == dimension_views(dimensions@),
            added == entry@,
            forall|i: int| 0 <= i < place ==> precedes((#[trigger] before[i]).name, added.name),
        decreases dimensions@.len() - place,
    {
        place = place + 1;
    }
    if place < dimensions.len() && dimensions[place].name == entry.name {
        dimensions.set(place, entry);
        proof {
            let after = dimension_views(dimensions@);
            assert(after =~= before.update(place as int, added));
            lemma_set(before, after, added, place as int, true);
        }
    } else {
        dimensions.insert(place, entry);
        proof {
            let after = dimension_views(dimensions@);
            assert(after =~= before.insert(place as int, added));
            lemma_set(before, after, added, place as int, false);
        }
    }
}

proof fn lemma_set(before: Seq<PairView>, after: Seq<PairView>, added: PairView, place: int, replaces: bool)
    requires
        in_order(before),
        0 <= place <= before.len(),
        forall|i: int| 0 <= i < place ==> precedes((#[trigger] before[i]).name, added.name),
        place < before.len() ==> !precedes(before[place].name, added.name),
        replaces ==> place < before.len() && before[place].name == added.name && after == before.update(place, added),
        !replaces ==> after == before.insert(place, added) && (place < before.len() ==> before[place].name
            != added.name),
    ensures
        in_order(after),
        forall|name: Seq<char>| #[trigger]
            value_of(after, name) == if name == added.name {
                Some(added.value)
            } else {
                value_of(before, name)
            },
{
    let shift: int = if replaces {
        0
    } else {
        1
    };
    assert forall|i: int| place + 1 - shift <= i < before.len() implies precedes(
        added.name,
        (#[trigger] before[i]).name,
    ) by {
        law_order_of_texts(before[place].name, added.name, added.name);
        law_order_of_texts(added.name, before[place].name, before[i].name);
        if i > place {
            assert(precedes(before[place].name, before[i].name));
        }
    }
    assert forall|i: int, j: int| 0 <= i < j < after.len() implies precedes(
        (#[trigger] after[i]).name,
        (#[trigger] after[j]).name,
    ) by {
        if i < place {
            assert(after[i] == before[i]);
        } else if i > place {
            assert(after[i] == before[i - shift]);
        }
        if j < place {
            assert(after[j] == before[j]);
        } else if j > place {
            assert(after[j] == before[j - shift]);
        }
    }
    assert forall|name: Seq<char>| #[trigger] value_of(after, name) == if name == added.name {
        Some(added.value)
    } else {
        value_of(before, name)
    } by {
        lemma_value_at(after, place);
        if name != added.name {
            lemma_value_of(before, name);
            lemma_value_of(after, name);
            if value_of(before, name) is Some {
                let i = choose|i: int|
                    0 <= i < before.len() && (#[trigger] before[i]).name == name && before[i].value == value_of(
                        before,
                        name,
                    )->0;
                let j = if i < place {
                    i
                } else {
                    i + shift
                };
                assert(after[j] == before[i]);
                lemma_value_at(after, j);
            } else {
                assert forall|i: int| 0 <= i < after.len() implies (#[trigger] after[i]).name != name by {
                    if i < place {
                        assert(after[i] == before[i]);
                    } else if i > place {
                        assert(after[i] == before[i - shift]);
                    }
                }
            }
        }
    }
}

proof fn lemma_last_is_last(a: Seq<PairView>, b: Seq<PairView>)
    requires
        in_order(a),
        in_order(b),
        a.len() > 0,
        b.len() > 0,
        forall|name: Seq<char>| #[trigger] value_of(a, name) == value_of(b, name),
    ensures
        !precedes(a.last().name, b.last().name),
{
    let name = b.last().name;
    if precedes(a.last().name, name) {
        lemma_value_at(b, b.len() - 1);
        lemma_value_of(a, name);
        let i = choose|i: int| 0 <= i < a.len() && (#[trigger] a[i]).name == name;
        law_order_of_texts(a[i].name, a.last().name, name);
        law_order_of_texts(name, name, name);
        if i < a.len() - 1 {
            assert(precedes(a[i].name, a[a.len() - 1].name));
        }
    }
}

/// Dimensions in order are determined by the value that each name has.
pub proof fn law_values_determine_the_dimensions(a: Seq<PairView>, b: Seq<PairView>)
    requires
        in_order(a),
        in_order(b),
        forall|name: Seq<char>| #[trigger] value_of(a, name) == value_of(b, name),
    ensures
        a == b,
    decreases a.len(),
{
    if a.len() == 0 || b.len() == 0 {
        if a.len() > 0 {
            lemma_value_at(a, 0);
            assert(value_of(b, a[0].name) is None);
        }
        if b.len() > 0 {
            lemma_value_at(b, 0);
            assert(value_of(a, b[0].name) is None);
        }
        assert(a =~= b);
    } else {
        lemma_last_is_last(a, b);
        lemma_last_is_last(b, a);
        law_order_of_texts(a.last().name, b.last().name, a.last().name);
        let name = a.last().name;
        lemma_value_at(a, a.len() - 1);
        lemma_value_at(b, b.len() - 1);
        assert(a.last() == b.last());
        let (x, y) = (a.drop_last(), b.drop_last());
        assert forall|other: Seq<char>| #[trigger] value_of(x, other) == value_of(y, other) by {
            if other != name {
                assert(value_of(a, other) == value_of(x, other));
                assert(value_of(b, other) == value_of(y, other));
            } else {
                lemma_value_of(x, name);
                lemma_value_of(y, name);
                law_order_of_texts(name, name, name);
                assert forall|i: int| 0 <= i < x.len() implies (#[trigger] x[i]).name != name by {
                    assert(precedes(a[i].name, a[a.len() - 1].name));
                }
                assert forall|i: int| 0 <= i < y.len() implies (#[trigger] y[i]).name != name by {
                    assert(precedes(b[i].name, b[b.len() - 1].name));
                }
            }
        }
        law_values_determine_the_dimensions(x, y);
        assert(a =~= x.push(a.last()));
        assert(b =~= y.push(b.last()));
    }
}

impl CollectorConfig {
    /// The dimensions that every metric gets.
    pub closed spec fn dimensions(self) -> Seq<PairView> {
        dimension_views(self.default_dimensions@)
    }

    /// The period that metrics are collected over.
    pub closed spec fn resolution(self) -> Resolution {
        self.storage_resolution
    }

    pub open spec fn is_valid(self) -> bool {
        in_order(self.dimensions())
    }

    /// Settings with the given dimensions. They are put into the order of their names, and of
    /// several values for one name the last counts; dimensions that come in that order are taken as
    /// they are.
    pub fn new(default_dimensions: Vec<Dimension>, storage_resolution: Resolution) -> (config: CollectorConfig)
        ensures
            config.is_valid(),
            config.resolution() == storage_resolution,
            forall|name: Seq<char>| #[trigger]
                value_of(config.dimensions(), name) == value_of(dimension_views(default_dimensions@), name),
            in_order(dimension_views(default_dimensions@)) ==> config.dimensions() == dimension_views(
                default_dimensions@,
            ),
    {
        let mut ordered: Vec<Dimension> = Vec::new();
        let ghost entries = dimension_views(default_dimensions@);
        assert(dimension_views(ordered@) =~= Seq::empty());
        for entry in walk: default_dimensions
            invariant
                walk.seq() == default_dimensions@,
                entries == dimension_views(default_dimensions@),
                in_order(dimension_views(ordered@)),
                forall|name: Seq<char>| #[trigger]
                    value_of(dimension_views(ordered@), name) == value_of(entries.take(walk.index()), name),
        {
            let ghost taken = entries.take(walk.index() + 1);
            assert(taken.drop_last() =~= entries.take(walk.index()));
            assert(taken.last() == entry@);
            set_value(&mut ordered, entry);
        }
        proof {
            assert(entries.take(entries.len() as int) =~= entries);
            if in_order(entries) {
                law_values_determine_the_dimensions(dimension_views(ordered@), entries);
            }
        }
        CollectorConfig { default_dimensions: ordered, storage_resolution }
    }

    /// The dimensions that every metric gets.
    pub fn default_dimensions(&self) -> (copy: Vec<Dimension>)
        ensures
            dimension_views(copy@) == self.dimensions(),
    {
        copy_dimensions(&self.default_dimensions)
    }

    /// The period that metrics are collected over.
    pub fn storage_resolution(&self) -> (resolution: Resolution)
        ensures
            resolution == self.resolution(),
    {
        self.storage_resolution
    }
}

} // verus!
