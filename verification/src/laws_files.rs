//! Which files are read, and in which order.

use crate::files::{config_names, in_order, precedes, precedes_from, rule_names};
use vstd::prelude::*;

verus! {

/// Whether a name is something and then an ending.
pub open spec fn ends_in(name: Seq<char>, ending: Seq<char>) -> bool {
    exists|stem: Seq<char>| stem.len() > 0 && name == #[trigger] (stem + ending)
}

proof fn lemma_ends_in(name: Seq<char>, ending: Seq<char>)
    ensures
        ending.is_suffix_of(name) && name.len() > ending.len() <==> ends_in(name, ending),
{
    if ending.is_suffix_of(name) && name.len() > ending.len() {
        let stem = name.take(name.len() - ending.len());
        assert(name =~= stem + ending);
    }
    if ends_in(name, ending) {
        let stem = choose|stem: Seq<char>| stem.len() > 0 && name == #[trigger] (stem + ending);
        assert(name.subrange(name.len() - ending.len(), name.len() as int) =~= ending);
    }
}

/// One more file is read as configuration exactly if its name is something and then `.tf`, and as a
/// rule exactly if it is something and then `.yaml` or `.yml`.
pub proof fn law_files_are_told_by_their_ending(names: Seq<Seq<char>>, name: Seq<char>)
    ensures
        config_names(Seq::empty()) == Seq::<Seq<char>>::empty(),
        rule_names(Seq::empty()) == Seq::<Seq<char>>::empty(),
        config_names(names.push(name)) == if ends_in(name, ".tf"@) {
            config_names(names).push(name)
        } else {
            config_names(names)
        },
        rule_names(names.push(name)) == if ends_in(name, ".yaml"@) || ends_in(name, ".yml"@) {
            rule_names(names).push(name)
        } else {
            rule_names(names)
        },
{
    lemma_ends_in(name, ".tf"@);
    lemma_ends_in(name, ".yaml"@);
    lemma_ends_in(name, ".yml"@);
    assert(names.push(name).drop_last() =~= names);
}

/// Whether two texts agree up to a position, and the first one ends there or has the smaller character
/// there.
pub open spec fn differs_at(a: Seq<char>, b: Seq<char>, k: int) -> bool {
    &&& 0 <= k <= a.len()
    &&& k < b.len()
    &&& a.take(k) == b.take(k)
    &&& (k == a.len() || a[k] < b[k])
}

proof fn lemma_precedes(a: Seq<char>, b: Seq<char>, i: int)
    requires
        0 <= i <= a.len(),
        i <= b.len(),
        a.take(i) == b.take(i),
    ensures
        precedes_from(a, b, i) ==> exists|k: int| #[trigger] differs_at(a, b, k),
        !precedes_from(a, b, i) ==> a == b || exists|k: int| #[trigger] differs_at(b, a, k),
    decreases a.len() - i,
{
    if i < a.len() && i < b.len() && a[i] == b[i] {
        assert(a.take(i + 1) =~= a.take(i).push(a[i]));
        assert(b.take(i + 1) =~= b.take(i).push(b[i]));
        lemma_precedes(a, b, i + 1);
    } else if i >= a.len() {
        if i < b.len() {
            assert(differs_at(a, b, i));
        } else {
            assert(a.take(i) =~= a);
            assert(b.take(i) =~= b);
        }
    } else if i >= b.len() {
        assert(differs_at(b, a, i));
    } else if a[i] < b[i] {
        assert(differs_at(a, b, i));
    } else {
        assert(differs_at(b, a, i));
    }
}

proof fn lemma_one_way(a: Seq<char>, b: Seq<char>, i: int, j: int)
    requires
        differs_at(a, b, i),
    ensures
        !differs_at(b, a, j),
{
    if !differs_at(b, a, j) {
    } else if i < j {
        assert(a.take(j)[i] == b.take(j)[i]);
    } else if j < i {
        assert(a.take(i)[j] == b.take(i)[j]);
    }
}

/// One text comes before another exactly if, where the two first differ, it ends or has the smaller
/// character. Of two different texts, exactly one comes before the other.
pub proof fn law_names_are_ordered(a: Seq<char>, b: Seq<char>)
    ensures
        precedes(a, b) <==> exists|k: int| #[trigger] differs_at(a, b, k),
        a != b ==> precedes(a, b) != precedes(b, a),
        !precedes(a, a),
{
    assert(a.take(0) =~= b.take(0));
    lemma_precedes(a, b, 0);
    lemma_precedes(b, a, 0);
    assert(a.take(0) =~= a.take(0));
    lemma_precedes(a, a, 0);
    if !precedes(a, b) && exists|k: int| #[trigger] differs_at(a, b, k) {
        let i = choose|k: int| #[trigger] differs_at(a, b, k);
        if a == b {
        } else {
            let j = choose|k: int| #[trigger] differs_at(b, a, k);
            lemma_one_way(a, b, i, j);
        }
    }
    if precedes(a, b) && precedes(b, a) {
        let i = choose|k: int| #[trigger] differs_at(a, b, k);
        let j = choose|k: int| #[trigger] differs_at(b, a, k);
        lemma_one_way(a, b, i, j);
    }
    if !precedes(a, b) && !precedes(b, a) && a != b {
        let i = choose|k: int| #[trigger] differs_at(a, b, k);
        let j = choose|k: int| #[trigger] differs_at(b, a, k);
        lemma_one_way(a, b, i, j);
    }
}

/// Names are in order exactly if each one is the same as the next or comes before it, however far
/// behind the next one is.
pub proof fn law_what_in_order_means(list: Seq<Seq<char>>)
    ensures
        in_order(list) <==> forall|i: int, j: int|
            0 <= i < j < list.len() ==> #[trigger] list[i] == #[trigger] list[j] || precedes(
                list[i],
                list[j],
            ),
{
    assert forall|i: int, j: int| 0 <= i < j < list.len() implies (!precedes(
        #[trigger] list[j],
        #[trigger] list[i],
    ) <==> list[i] == list[j] || precedes(list[i], list[j])) by {
        law_names_are_ordered(list[i], list[j]);
    }
}

} // verus!
