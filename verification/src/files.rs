//! Which files of a directory are read, and in which order.

use crate::text::{chars_of, ends_with, texts};
use vstd::prelude::*;
use vstd::string::StrSliceExecFns;

verus! {

/// Whether the first text comes before the second, where both are the same before position `i`.
pub open spec fn precedes_from(a: Seq<char>, b: Seq<char>, i: int) -> bool
    decreases a.len() - i,
{
    if i < 0 || i >= a.len() {
        i < b.len()
    } else if i >= b.len() {
        false
    } else if a[i] == b[i] {
        precedes_from(a, b, i + 1)
    } else {
        a[i] < b[i]
    }
}

/// Whether the first text comes before the second: at the first character in which they differ it
/// has the smaller one, or it is the beginning of the second.
pub open spec fn precedes(a: Seq<char>, b: Seq<char>) -> bool {
    precedes_from(a, b, 0)
}

/// Whether no text of a list comes before an earlier one.
pub open spec fn in_order(list: Seq<Seq<char>>) -> bool {
    forall|i: int, j: int|
        0 <= i < j < list.len() ==> !precedes(#[trigger] list[j], #[trigger] list[i])
}

/// Whether a file name has an extension: something, and then the extension with its dot.
pub open spec fn has_extension(name: Seq<char>, dotted: Seq<char>) -> bool {
    dotted.is_suffix_of(name) && name.len() > dotted.len()
}

/// Whether a file is a configuration file, by its name.
pub open spec fn is_config_name(name: Seq<char>) -> bool {
    has_extension(name, ".tf"@)
}

/// Whether a file holds a rule, by its name.
pub open spec fn is_rule_name(name: Seq<char>) -> bool {
    has_extension(name, ".yaml"@) || has_extension(name, ".yml"@)
}

/// The names of configuration files.
pub open spec fn config_names(names: Seq<Seq<char>>) -> Seq<Seq<char>>
    decreases names.len(),
{
    if names.len() == 0 {
        Seq::empty()
    } else if is_config_name(names.last()) {
        config_names(names.drop_last()).push(names.last())
    } else {
        config_names(names.drop_last())
    }
}

/// The names of files that hold rules.
pub open spec fn rule_names(names: Seq<Seq<char>>) -> Seq<Seq<char>>
    decreases names.len(),
{
    if names.len() == 0 {
        Seq::empty()
    } else if is_rule_name(names.last()) {
        rule_names(names.drop_last()).push(names.last())
    } else {
        rule_names(names.drop_last())
    }
}

/// If `b` does not come before `a`, nor `c` before `b`, then `c` does not come before `a`.
proof fn lemma_order(a: Seq<char>, b: Seq<char>, c: Seq<char>, i: int)
    requires
        0 <= i,
        i <= a.len() || i <= b.len() || i <= c.len(),
        !precedes_from(b, a, i),
        !precedes_from(c, b, i),
    ensures
        !precedes_from(c, a, i),
    decreases a.len() + b.len() + c.len() - i,
{
    if i < a.len() && i < b.len() && i < c.len() && a[i] == b[i] && b[i] == c[i] {
        lemma_order(a, b, c, i + 1);
    }
}

/// Whether the first text comes before the second.
fn comes_before(a: &str, b: &str) -> (r: bool)
    ensures
        r == precedes(a@, b@),
{
    let x = chars_of(a);
    let y = chars_of(b);
    let mut i: usize = 0;
    while i < x.len() && i < y.len() && x[i] == y[i]
        invariant
            x@ == a@,
            y@ == b@,
            i <= x@.len(),
            precedes(a@, b@) == precedes_from(a@, b@, i as int),
        decreases x@.len() - i,
    {
        i = i + 1;
    }
    if i >= x.len() {
        i < y.len()
    } else if i >= y.len() {
        false
    } else {
        x[i] < y[i]
    }
}

/// Puts a name in its place in a list that is in order.
fn place_name(list: &mut Vec<String>, name: String)
    requires
        in_order(texts(old(list)@)),
    ensures
        in_order(texts(final(list)@)),
        texts(final(list)@).to_multiset() == texts(old(list)@).to_multiset().insert(name@),
{
    broadcast use vstd::seq_lib::group_to_multiset_ensures;

    let ghost before = texts(list@);
    let ghost new = name@;
    let mut p: usize = list.len();
    while p > 0 && comes_before(name.as_str(), list[p - 1].as_str())
        invariant
            p <= list@.len(),
            new == name@,
            before == texts(list@),
            in_order(before),
            forall|j: int| p <= j < before.len() ==> precedes(new, #[trigger] before[j]),
        decreases p,
    {
        assert(before[p - 1] == list@[p - 1]@);
        p = p - 1;
    }
    list.insert(p, name);
    proof {
        let after = texts(list@);
        assert(after =~= before.take(p as int).push(new) + before.skip(p as int));
        assert(before =~= before.take(p as int) + before.skip(p as int));
        vstd::seq_lib::lemma_multiset_commutative(
            before.take(p as int).push(new),
            before.skip(p as int),
        );
        vstd::seq_lib::lemma_multiset_commutative(before.take(p as int), before.skip(p as int));
        assert(after.to_multiset() =~= before.to_multiset().insert(new));
        assert forall|i: int, j: int| 0 <= i < j < after.len() implies !precedes(
            #[trigger] after[j],
            #[trigger] after[i],
        ) by {
            if j < p {
                assert(!precedes(before[j], before[i]));
            } else if j == p {
                if i < p - 1 {
                    assert(!precedes(before[p - 1], before[i]));
                    lemma_order(before[i], before[p - 1], new, 0);
                }
            } else if i == p {
                lemma_precedes_one_way(new, before[j - 1], 0);
            } else if i < p {
                assert(!precedes(before[j - 1], before[i]));
            } else {
                assert(!precedes(before[j - 1], before[i - 1]));
            }
        }
    }
}

proof fn lemma_precedes_one_way(a: Seq<char>, b: Seq<char>, i: int)
    requires
        0 <= i,
        i <= a.len() || i <= b.len(),
        precedes_from(a, b, i),
    ensures
        !precedes_from(b, a, i),
    decreases a.len() + b.len() - i,
{
    if i < a.len() && i < b.len() && a[i] == b[i] {
        lemma_precedes_one_way(a, b, i + 1);
    }
}

/// Whether a file name has an extension.
fn name_has_extension(name: &str, dotted: &str) -> (r: bool)
    ensures
        r == has_extension(name@, dotted@),
{
    ends_with(name, dotted) && name.unicode_len() > dotted.unicode_len()
}

/// The names of configuration files among those of a directory, in order.
pub fn config_files(names: &Vec<String>) -> (r: Vec<String>)
    ensures
        in_order(texts(r@)),
        texts(r@).to_multiset() == config_names(texts(names@)).to_multiset(),
{
    let ghost views = texts(names@);
    let mut out: Vec<String> = Vec::new();
    let mut i: usize = 0;
    assert(views.take(0) =~= Seq::empty());
    assert(texts(out@) =~= Seq::empty());
    while i < names.len()
        invariant
            i <= names@.len(),
            views == texts(names@),
            in_order(texts(out@)),
            texts(out@).to_multiset() == config_names(views.take(i as int)).to_multiset(),
        decreases names@.len() - i,
    {
        proof {
            assert(views.take(i + 1).drop_last() =~= views.take(i as int));
            assert(views.take(i + 1).last() == names@[i as int]@);
        }
        if name_has_extension(names[i].as_str(), ".tf") {
            proof {
                vstd::seq_lib::to_multiset_build(config_names(views.take(i as int)), names@[i as int]@);
            }
            place_name(&mut out, names[i].clone());
        }
        i = i + 1;
    }
    assert(views.take(i as int) =~= views);
    out
}

/// The names of files that hold rules among those of a directory, in order.
pub fn rule_files(names: &Vec<String>) -> (r: Vec<String>)
    ensures
        in_order(texts(r@)),
        texts(r@).to_multiset() == rule_names(texts(names@)).to_multiset(),
{
    let ghost views = texts(names@);
    let mut out: Vec<String> = Vec::new();
    let mut i: usize = 0;
    assert(views.take(0) =~= Seq::empty());
    assert(texts(out@) =~= Seq::empty());
    while i < names.len()
        invariant
            i <= names@.len(),
            views == texts(names@),
            in_order(texts(out@)),
            texts(out@).to_multiset() == rule_names(views.take(i as int)).to_multiset(),
        decreases names@.len() - i,
    {
        proof {
            assert(views.take(i + 1).drop_last() =~= views.take(i as int));
            assert(views.take(i + 1).last() == names@[i as int]@);
        }
        let name = names[i].as_str();
        if name_has_extension(name, ".yaml") || name_has_extension(name, ".yml") {
            proof {
                vstd::seq_lib::to_multiset_build(rule_names(views.take(i as int)), names@[i as int]@);
            }
            place_name(&mut out, names[i].clone());
        }
        i = i + 1;
    }
    assert(views.take(i as int) =~= views);
    out
}

} // verus!
