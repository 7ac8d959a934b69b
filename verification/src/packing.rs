//! The order in which records go into the container: by label, so that
//! the slot of each record does not depend on the order in which the
//! records were found.

use vstd::prelude::*;
use crate::record::{label_text, record_views, BdxRecord, RecordView};

verus! {

/// Whether text `a` is `b` or comes before it, character by character in
/// the order of their code points; a text comes after each of its proper
/// beginnings.
pub open spec fn text_le(a: Seq<char>, b: Seq<char>) -> bool
    decreases a.len(),
{
    if a.len() == 0 {
        true
    } else if b.len() == 0 {
        false
    } else if a[0] != b[0] {
        (a[0] as int) < (b[0] as int)
    } else {
        text_le(a.drop_first(), b.drop_first())
    }
}

/// Whether the label of `a` is that of `b` or comes before it.
pub open spec fn label_le(a: RecordView, b: RecordView) -> bool {
    text_le(label_text(a.header), label_text(b.header))
}

/// `sorted` with `record` put in front of the first record whose label is
/// not less than its own, or at the end when there is none.
pub open spec fn placed(sorted: Seq<RecordView>, record: RecordView) -> Seq<RecordView>
    decreases sorted.len(),
{
    if sorted.len() == 0 {
        seq![record]
    } else if label_le(record, sorted[0]) {
        seq![record] + sorted
    } else {
        seq![sorted[0]] + placed(sorted.drop_first(), record)
    }
}

/// The records in the order of their labels. Records with one label keep
/// the order that they came in.
pub open spec fn ordered_by_label(records: Seq<RecordView>) -> Seq<RecordView>
    decreases records.len(),
{
    if records.len() == 0 {
        Seq::empty()
    } else {
        placed(ordered_by_label(records.drop_first()), records[0])
    }
}

/// Whether no record of a list has a label that comes after the label of a
/// later one.
pub open spec fn is_ordered(records: Seq<RecordView>) -> bool {
    forall|i: int, j: int| 0 <= i < j < records.len() ==> label_le(records[i], records[j])
}

/// Of two texts, one is the other or comes before it.
pub proof fn lemma_text_le_total(a: Seq<char>, b: Seq<char>)
    ensures
        text_le(a, b) || text_le(b, a),
    decreases a.len(),
{
    if a.len() > 0 && b.len() > 0 && a[0] == b[0] {
        lemma_text_le_total(a.drop_first(), b.drop_first());
    }
}

/// The order of texts is transitive.
pub proof fn lemma_text_le_transitive(a: Seq<char>, b: Seq<char>, c: Seq<char>)
    requires
        text_le(a, b),
        text_le(b, c),
    ensures
        text_le(a, c),
    decreases a.len(),
{
    if a.len() > 0 && b.len() > 0 && c.len() > 0 && a[0] == b[0] && b[0] == c[0] {
        lemma_text_le_transitive(a.drop_first(), b.drop_first(), c.drop_first());
    }
}

/// Two texts that each come no later than the other are one text.
pub proof fn lemma_text_le_antisymmetric(a: Seq<char>, b: Seq<char>)
    requires
        text_le(a, b),
        text_le(b, a),
    ensures
        a == b,
    decreases a.len(),
{
    if a.len() > 0 && b.len() > 0 {
        lemma_text_le_antisymmetric(a.drop_first(), b.drop_first());
        assert(a =~= seq![a[0]] + a.drop_first());
        assert(b =~= seq![b[0]] + b.drop_first());
    } else {
        assert(a =~= b);
    }
}

/// Putting a record in place adds it and nothing else, and keeps an
/// ordered list ordered.
pub proof fn lemma_placed(sorted: Seq<RecordView>, record: RecordView)
    ensures
        placed(sorted, record).len() == sorted.len() + 1,
        placed(sorted, record).to_multiset() == sorted.to_multiset().insert(record),
        is_ordered(sorted) ==> is_ordered(placed(sorted, record)),
        forall|i: int|
            0 <= i < sorted.len() + 1 ==> (#[trigger] placed(sorted, record)[i]) == record
                || sorted.contains(placed(sorted, record)[i]),
    decreases sorted.len(),
{
    broadcast use vstd::seq_lib::group_to_multiset_ensures;

    let out = placed(sorted, record);
    if sorted.len() == 0 {
        assert(out =~= Seq::<RecordView>::empty().push(record));
        assert(sorted =~= Seq::<RecordView>::empty());
    } else if label_le(record, sorted[0]) {
        assert(out.remove(0) =~= sorted);
        assert(out.to_multiset().remove(out[0]) == sorted.to_multiset());
        assert(out.to_multiset() =~= sorted.to_multiset().insert(record));
        assert forall|i: int| 0 <= i < sorted.len() + 1 implies (#[trigger] out[i]) == record
            || sorted.contains(out[i]) by {
            if i > 0 {
                assert(out[i] == sorted[i - 1]);
            }
        }
        if is_ordered(sorted) {
            assert forall|i: int, j: int| 0 <= i < j < out.len() implies label_le(
                out[i],
                out[j],
            ) by {
                if i == 0 {
                    assert(out[j] == sorted[j - 1]);
                    if j > 1 {
                        assert(label_le(sorted[0], sorted[j - 1]));
                        lemma_text_le_transitive(
                            label_text(record.header),
                            label_text(sorted[0].header),
                            label_text(sorted[j - 1].header),
                        );
                    }
                } else {
                    assert(label_le(sorted[i - 1], sorted[j - 1]));
                }
            }
        }
    } else {
        let rest = sorted.drop_first();
        let inner = placed(rest, record);
        lemma_placed(rest, record);
        assert(out.remove(0) =~= inner);
        assert(sorted.remove(0) =~= rest);
        assert(out.to_multiset().remove(out[0]) == inner.to_multiset());
        assert(sorted.to_multiset().remove(sorted[0]) == rest.to_multiset());
        assert(out.to_multiset() =~= inner.to_multiset().insert(sorted[0]));
        assert(sorted.to_multiset() =~= rest.to_multiset().insert(sorted[0]));
        assert(out.to_multiset() =~= sorted.to_multiset().insert(record));
        assert forall|i: int| 0 <= i < sorted.len() + 1 implies (#[trigger] out[i]) == record
            || sorted.contains(out[i]) by {
            if i > 0 {
                assert(out[i] == inner[i - 1]);
                if inner[i - 1] != record {
                    let k = choose|k: int| 0 <= k < rest.len() && rest[k] == inner[i - 1];
                    assert(sorted[k + 1] == out[i]);
                }
            } else {
                assert(sorted[0] == out[0]);
            }
        }
        if is_ordered(sorted) {
            assert(is_ordered(rest)) by {
                assert forall|i: int, j: int| 0 <= i < j < rest.len() implies label_le(
                    rest[i],
                    rest[j],
                ) by {
                    assert(label_le(sorted[i + 1], sorted[j + 1]));
                }
            }
            lemma_text_le_total(label_text(record.header), label_text(sorted[0].header));
            assert forall|i: int, j: int| 0 <= i < j < out.len() implies label_le(
                out[i],
                out[j],
            ) by {
                assert(out[j] == inner[j - 1]);
                if i == 0 {
                    if inner[j - 1] != record {
                        let k = choose|k: int| 0 <= k < rest.len() && rest[k] == inner[j - 1];
                        assert(label_le(sorted[0], sorted[k + 1]));
                    }
                } else {
                    assert(out[i] == inner[i - 1]);
                    assert(label_le(inner[i - 1], inner[j - 1]));
                }
            }
        }
    }
}

/// Ordering by label gives an ordered list that holds each record as often
/// as the list that was given.
pub proof fn lemma_ordered_by_label(records: Seq<RecordView>)
    ensures
        is_ordered(ordered_by_label(records)),
        ordered_by_label(records).to_multiset() == records.to_multiset(),
        ordered_by_label(records).len() == records.len(),
    decreases records.len(),
{
    broadcast use vstd::seq_lib::group_to_multiset_ensures;

    if records.len() > 0 {
        let rest = records.drop_first();
        lemma_ordered_by_label(rest);
        lemma_placed(ordered_by_label(rest), records[0]);
        assert(records.remove(0) =~= rest);
        assert(records.to_multiset().remove(records[0]) == rest.to_multiset());
        assert(records.to_multiset() =~= rest.to_multiset().insert(records[0]));
    }
}

/// Whether no two records of a list have one label.
pub open spec fn labels_differ(records: Seq<RecordView>) -> bool {
    forall|i: int, j: int|
        0 <= i < j < records.len() ==> label_text(records[i].header) != label_text(
            records[j].header,
        )
}

/// A record that stands at two places of a list is in it at least twice.
proof fn lemma_twice(records: Seq<RecordView>, i: int, j: int)
    requires
        0 <= i < j < records.len(),
        records[i] == records[j],
    ensures
        records.to_multiset().count(records[i]) >= 2,
{
    broadcast use vstd::seq_lib::group_to_multiset_ensures;

    let rest = records.remove(i);
    rest.to_multiset_ensures();
    assert(rest[j - 1] == records[j]);
    assert(rest.contains(records[i]));
    assert(rest.to_multiset().count(records[i]) > 0);
    assert(rest.to_multiset() == records.to_multiset().remove(records[i]));
}

/// Whatever is in a list at least twice stands at a second place of it.
proof fn lemma_second_place(records: Seq<RecordView>, i: int) -> (j: int)
    requires
        0 <= i < records.len(),
        records.to_multiset().count(records[i]) >= 2,
    ensures
        0 <= j < records.len(),
        j != i,
        records[j] == records[i],
{
    broadcast use vstd::seq_lib::group_to_multiset_ensures;

    let rest = records.remove(i);
    rest.to_multiset_ensures();
    assert(rest.to_multiset() == records.to_multiset().remove(records[i]));
    assert(rest.to_multiset().count(records[i]) > 0);
    assert(rest.contains(records[i]));
    let k = choose|k: int| 0 <= k < rest.len() && rest[k] == records[i];
    if k < i {
        k
    } else {
        k + 1
    }
}

/// A list that holds the records of a list without two equal labels is
/// itself without two equal labels.
pub proof fn lemma_labels_differ(given: Seq<RecordView>, other: Seq<RecordView>)
    requires
        labels_differ(given),
        given.to_multiset() == other.to_multiset(),
    ensures
        labels_differ(other),
{
    broadcast use vstd::seq_lib::group_to_multiset_ensures;

    given.to_multiset_ensures();
    other.to_multiset_ensures();
    assert forall|i: int, j: int| 0 <= i < j < other.len() implies label_text(other[i].header)
        != label_text(other[j].header) by {
        assert(other.contains(other[i]));
        assert(other.contains(other[j]));
        assert(given.to_multiset().count(other[i]) > 0);
        assert(given.to_multiset().count(other[j]) > 0);
        assert(given.contains(other[i]));
        assert(given.contains(other[j]));
        let p = choose|p: int| 0 <= p < given.len() && given[p] == other[i];
        let q = choose|q: int| 0 <= q < given.len() && given[q] == other[j];
        if p == q {
            lemma_twice(other, i, j);
            let r = lemma_second_place(given, p);
            if r < p {
                assert(label_text(given[r].header) != label_text(given[p].header));
            } else {
                assert(label_text(given[p].header) != label_text(given[r].header));
            }
        } else if p < q {
            assert(label_text(given[p].header) != label_text(given[q].header));
        } else {
            assert(label_text(given[q].header) != label_text(given[p].header));
        }
    }
}

/// There is one way only to order records of which no two have one label:
/// two ordered lists of the same records are one list.
pub proof fn lemma_ordered_unique(one: Seq<RecordView>, other: Seq<RecordView>)
    requires
        is_ordered(one),
        is_ordered(other),
        labels_differ(one),
        one.to_multiset() == other.to_multiset(),
    ensures
        one == other,
    decreases one.len(),
{
    broadcast use vstd::seq_lib::group_to_multiset_ensures;

    one.to_multiset_ensures();
    other.to_multiset_ensures();
    assert(one.len() == other.len());
    if one.len() == 0 {
        assert(one =~= other);
    } else {
        assert(one.contains(one[0]));
        assert(other.contains(other[0]));
        assert(other.to_multiset().count(one[0]) > 0);
        assert(one.to_multiset().count(other[0]) > 0);
        assert(other.contains(one[0]));
        assert(one.contains(other[0]));
        let k = choose|k: int| 0 <= k < other.len() && other[k] == one[0];
        let m = choose|m: int| 0 <= m < one.len() && one[m] == other[0];
        if k > 0 && m > 0 {
            assert(label_le(one[0], one[m]));
            assert(label_le(other[0], other[k]));
            lemma_text_le_antisymmetric(
                label_text(one[0].header),
                label_text(other[0].header),
            );
            assert(label_text(one[0].header) != label_text(one[m].header));
        }
        assert(one[0] == other[0]);
        let rest = one.drop_first();
        let others = other.drop_first();
        assert(one.remove(0) =~= rest);
        assert(other.remove(0) =~= others);
        assert(rest.to_multiset() == one.to_multiset().remove(one[0]));
        assert(others.to_multiset() == other.to_multiset().remove(other[0]));
        assert(is_ordered(rest)) by {
            assert forall|i: int, j: int| 0 <= i < j < rest.len() implies label_le(
                rest[i],
                rest[j],
            ) by {
                assert(label_le(one[i + 1], one[j + 1]));
            }
        }
        assert(is_ordered(others)) by {
            assert forall|i: int, j: int| 0 <= i < j < others.len() implies label_le(
                others[i],
                others[j],
            ) by {
                assert(label_le(other[i + 1], other[j + 1]));
            }
        }
        assert(labels_differ(rest)) by {
            assert forall|i: int, j: int| 0 <= i < j < rest.len() implies label_text(
                rest[i].header,
            ) != label_text(rest[j].header) by {
                assert(label_text(one[i + 1].header) != label_text(one[j + 1].header));
            }
        }
        lemma_ordered_unique(rest, others);
        assert(one =~= seq![one[0]] + rest);
        assert(other =~= seq![other[0]] + others);
    }
}

/// The order in which records are given does not matter when no two of
/// them have one label: the same records, given in any order, are put into
/// the same order.
pub proof fn lemma_order_is_independent(given: Seq<RecordView>, shuffled: Seq<RecordView>)
    requires
        labels_differ(given),
        given.to_multiset() == shuffled.to_multiset(),
    ensures
        ordered_by_label(given) == ordered_by_label(shuffled),
{
    lemma_ordered_by_label(given);
    lemma_ordered_by_label(shuffled);
    lemma_labels_differ(given, ordered_by_label(given));
    lemma_ordered_unique(ordered_by_label(given), ordered_by_label(shuffled));
}

/// Compares two texts.
pub fn text_before(a: &str, b: &str) -> (le: bool)
    ensures
        le == text_le(a@, b@),
{
    let n = a.unicode_len();
    let m = b.unicode_len();
    let mut i: usize = 0;
    assert(a@.skip(0) =~= a@);
    assert(b@.skip(0) =~= b@);
    while i < n && i < m
        invariant
            i <= n == a@.len(),
            i <= m == b@.len(),
            text_le(a@, b@) == text_le(a@.skip(i as int), b@.skip(i as int)),
        decreases n - i,
    {
        let x = a.get_char(i);
        let y = b.get_char(i);
        assert(a@.skip(i as int).drop_first() =~= a@.skip(i + 1));
        assert(b@.skip(i as int).drop_first() =~= b@.skip(i + 1));
        if x != y {
            return (x as u32) < (y as u32);
        }
        i += 1;
    }
    i == n
}

/// Orders records by label. Records with one label keep the order that
/// they came in.
pub fn sort_by_label(records: Vec<BdxRecord>) -> (sorted: Vec<BdxRecord>)
    ensures
        record_views(sorted@) == ordered_by_label(record_views(records@)),
{
    let ghost given = record_views(records@);
    let mut pending = records;
    let mut sorted: Vec<BdxRecord> = Vec::new();
    let mut labels: Vec<String> = Vec::new();
    assert(given.skip(given.len() as int) =~= Seq::<RecordView>::empty());
    assert(record_views(sorted@) =~= Seq::<RecordView>::empty());
    while pending.len() > 0
        invariant
            pending@.len() <= given.len(),
            record_views(pending@) == given.take(pending@.len() as int),
            record_views(sorted@) == ordered_by_label(given.skip(pending@.len() as int)),
            labels@.len() == sorted@.len(),
            forall|i: int|
                0 <= i < sorted@.len() ==> (#[trigger] labels@[i])@ == label_text(
                    sorted@[i]@.header,
                ),
        decreases pending@.len(),
    {
        let ghost left = pending@.len() - 1;
        let ghost before = record_views(pending@);
        let record = pending.pop().unwrap();
        let label = record.label();
        proof {
            assert(record@ == before[left]);
            assert(record_views(pending@) =~= given.take(left));
            assert(given.skip(left)[0] == record@);
            assert(given.skip(left).drop_first() =~= given.skip(left + 1));
        }
        let ghost views = record_views(sorted@);
        let mut j: usize = 0;
        assert(views.take(0) + placed(views.skip(0), record@) =~= placed(views, record@)) by {
            assert(views.skip(0) =~= views);
        }
        while j < sorted.len() && !text_before(label.as_str(), labels[j].as_str())
            invariant
                j <= sorted@.len(),
                views == record_views(sorted@),
                labels@.len() == sorted@.len(),
                label@ == label_text(record@.header),
                forall|i: int|
                    0 <= i < sorted@.len() ==> (#[trigger] labels@[i])@ == label_text(
                        sorted@[i]@.header,
                    ),
                views.take(j as int) + placed(views.skip(j as int), record@) == placed(
                    views,
                    record@,
                ),
            decreases sorted@.len() - j,
        {
            proof {
                let rest = views.skip(j as int);
                assert(rest[0] == views[j as int]);
                assert(rest.drop_first() =~= views.skip(j + 1));
                assert(views.take(j + 1) + placed(views.skip(j + 1), record@) =~= views.take(
                    j as int,
                ) + placed(rest, record@));
            }
            j += 1;
        }
        proof {
            let rest = views.skip(j as int);
            if j < sorted@.len() {
                assert(rest[0] == views[j as int]);
            }
            assert(views.take(j as int) + placed(rest, record@) =~= views.insert(
                j as int,
                record@,
            ));
        }
        let ghost labels_before = labels@;
        let ghost sorted_before = sorted@;
        sorted.insert(j, record);
        labels.insert(j, label);
        assert(record_views(sorted@) =~= views.insert(j as int, record@));
        assert forall|i: int| 0 <= i < sorted@.len() implies (#[trigger] labels@[i])@
            == label_text(sorted@[i]@.header) by {
            if i > j {
                assert(labels@[i] == labels_before[i - 1]);
                assert(sorted@[i] == sorted_before[i - 1]);
            } else if i < j {
                assert(labels@[i] == labels_before[i]);
                assert(sorted@[i] == sorted_before[i]);
            }
        }
    }
    assert(given.skip(0) =~= given);
    sorted
}

} // verus!
