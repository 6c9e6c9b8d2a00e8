//! The canonical form of a set of path filters: every filter once, in
//! ascending order, joined by single blanks.

use crate::path::texts;
use crate::text::{chars_of, joined, same_text};
use vstd::prelude::*;
use vstd::string::StringExecFns;

verus! {

/// `a` comes before `b` in the lexicographic order of their characters, a
/// proper prefix coming before what it is a prefix of.
pub open spec fn precedes(a: Seq<char>, b: Seq<char>) -> bool
    decreases a.len(),
{
    if b.len() == 0 {
        false
    } else if a.len() == 0 {
        true
    } else if a[0] != b[0] {
        a[0] < b[0]
    } else {
        precedes(a.skip(1), b.skip(1))
    }
}

/// Every entry comes before every later one; so none occurs twice.
pub open spec fn is_ascending(list: Seq<Seq<char>>) -> bool {
    forall|i: int, j: int| 0 <= i < j < list.len() ==> precedes(list[i], list[j])
}

/// The entries of `set`, each once, in ascending order.
pub open spec fn ascending(set: Set<Seq<char>>) -> Seq<Seq<char>> {
    choose|list: Seq<Seq<char>>| is_ascending(list) && list.to_set() == set
}

/// The canonical filter string for a collection of filters: its distinct
/// members in ascending order with a blank between neighbours.
pub open spec fn canonical(filters: Seq<Seq<char>>) -> Seq<char> {
    joined(ascending(filters.to_set()), " "@)
}

/// No text comes before itself.
pub proof fn lemma_precedes_irreflexive(a: Seq<char>)
    ensures
        !precedes(a, a),
    decreases a.len(),
{
    if a.len() > 0 {
        lemma_precedes_irreflexive(a.skip(1));
    }
}

/// What comes before a text comes before everything that the text comes
/// before.
pub proof fn lemma_precedes_transitive(a: Seq<char>, b: Seq<char>, c: Seq<char>)
    requires
        precedes(a, b),
        precedes(b, c),
    ensures
        precedes(a, c),
    decreases a.len(),
{
    if a.len() > 0 && a[0] == b[0] && b[0] == c[0] {
        lemma_precedes_transitive(a.skip(1), b.skip(1), c.skip(1));
    }
}

/// Of two different texts one comes before the other.
pub proof fn lemma_precedes_connected(a: Seq<char>, b: Seq<char>)
    requires
        a != b,
    ensures
        precedes(a, b) || precedes(b, a),
    decreases a.len(),
{
    if a.len() > 0 && b.len() > 0 && a[0] == b[0] {
        if a.skip(1) == b.skip(1) {
            assert(a =~= seq![a[0]] + a.skip(1));
            assert(b =~= seq![b[0]] + b.skip(1));
        }
        lemma_precedes_connected(a.skip(1), b.skip(1));
    } else if a.len() == 0 && b.len() == 0 {
        assert(a =~= b);
    }
}

/// Two ascending lists with the same members are the same list.
pub proof fn lemma_ascending_unique(a: Seq<Seq<char>>, b: Seq<Seq<char>>)
    requires
        is_ascending(a),
        is_ascending(b),
        a.to_set() == b.to_set(),
    ensures
        a == b,
    decreases a.len(),
{
    if a.len() == 0 {
        if b.len() > 0 {
            assert(b.to_set().contains(b[0]));
            assert(a.contains(b[0]));
        }
        assert(a =~= b);
    } else if b.len() == 0 {
        assert(a.to_set().contains(a[0]));
        assert(b.contains(a[0]));
    } else {
        lemma_last_is_greatest(a, b);
        lemma_last_is_greatest(b, a);
        let top = a.last();
        assert(top == b.last()) by {
            if a.last() != b.last() {
                lemma_precedes_connected(a.last(), b.last());
                if precedes(a.last(), b.last()) {
                    lemma_precedes_transitive(a.last(), b.last(), a.last());
                } else {
                    lemma_precedes_transitive(b.last(), a.last(), b.last());
                }
                lemma_precedes_irreflexive(a.last());
                lemma_precedes_irreflexive(b.last());
            }
        }
        lemma_without_last(a);
        lemma_without_last(b);
        lemma_ascending_unique(a.drop_last(), b.drop_last());
        assert(a =~= a.drop_last().push(top));
        assert(b =~= b.drop_last().push(top));
    }
}

/// The last entry of an ascending list does not come before any member of a
/// list with the same members.
proof fn lemma_last_is_greatest(a: Seq<Seq<char>>, b: Seq<Seq<char>>)
    requires
        is_ascending(a),
        a.len() > 0,
        b.len() > 0,
        a.to_set() == b.to_set(),
    ensures
        !precedes(a.last(), b.last()),
{
    assert(b.to_set().contains(b.last()));
    assert(a.contains(b.last()));
    let i = choose|i: int| 0 <= i < a.len() && a[i] == b.last();
    if i < a.len() - 1 {
        if precedes(a.last(), a[i]) {
            lemma_precedes_transitive(a[i], a.last(), a[i]);
            lemma_precedes_irreflexive(a[i]);
        }
    } else {
        lemma_precedes_irreflexive(a.last());
    }
}

/// Dropping the last entry of an ascending list leaves an ascending list
/// whose members are the others.
proof fn lemma_without_last(a: Seq<Seq<char>>)
    requires
        is_ascending(a),
        a.len() > 0,
    ensures
        is_ascending(a.drop_last()),
        a.drop_last().to_set() == a.to_set().remove(a.last()),
{
    let init = a.drop_last();
    assert forall|x: Seq<char>| init.to_set().contains(x) <==> a.to_set().remove(
        a.last(),
    ).contains(x) by {
        if init.contains(x) {
            let i = choose|i: int| 0 <= i < init.len() && init[i] == x;
            assert(a[i] == x);
            assert(precedes(a[i], a.last()));
            lemma_precedes_irreflexive(x);
        }
        if a.contains(x) && x != a.last() {
            let i = choose|i: int| 0 <= i < a.len() && a[i] == x;
            assert(init[i] == x);
        }
    }
    assert(init.to_set() =~= a.to_set().remove(a.last()));
}

/// An ascending list with one more member: `item` put at its place.
proof fn lemma_with_member(list: Seq<Seq<char>>, item: Seq<char>) -> (longer: Seq<Seq<char>>)
    requires
        is_ascending(list),
    ensures
        is_ascending(longer),
        longer.to_set() == list.to_set().insert(item),
    decreases list.len(),
{
    if list.len() == 0 {
        let longer = seq![item];
        assert(longer =~= list.push(item));
        list.lemma_push_to_set_commute(item);
        longer
    } else if list.last() == item {
        assert(list.contains(list.last()));
        assert(list.to_set().insert(item) =~= list.to_set());
        list
    } else {
        let top = list.last();
        lemma_precedes_connected(top, item);
        lemma_without_last(list);
        if precedes(top, item) {
            let longer = list.push(item);
            assert forall|i: int, j: int| 0 <= i < j < longer.len() implies precedes(
                longer[i],
                longer[j],
            ) by {
                if j == list.len() && i < list.len() - 1 {
                    lemma_precedes_transitive(list[i], top, item);
                }
            }
            list.lemma_push_to_set_commute(item);
            longer
        } else {
            let below = lemma_with_member(list.drop_last(), item);
            let longer = below.push(top);
            assert forall|i: int, j: int| 0 <= i < j < longer.len() implies precedes(
                longer[i],
                longer[j],
            ) by {
                if j == below.len() {
                    assert(below.to_set().contains(below[i]));
                    if below[i] != item {
                        let n = choose|n: int|
                            0 <= n < list.drop_last().len() && list.drop_last()[n] == below[i];
                        assert(list[n] == below[i]);
                    }
                }
            }
            below.lemma_push_to_set_commute(top);
            assert(longer.to_set() =~= list.to_set().insert(item));
            longer
        }
    }
}

/// The members of any list can be put in ascending order: `ascending` of
/// them is ascending and has exactly those members.
pub proof fn lemma_ascending_exists(filters: Seq<Seq<char>>)
    ensures
        is_ascending(ascending(filters.to_set())),
        ascending(filters.to_set()).to_set() == filters.to_set(),
    decreases filters.len(),
{
    if filters.len() == 0 {
        let none = Seq::<Seq<char>>::empty();
        assert(none.to_set() =~= filters.to_set());
        assert(is_ascending(none));
    } else {
        let init = filters.drop_last();
        lemma_ascending_exists(init);
        let list = lemma_with_member(ascending(init.to_set()), filters.last());
        init.lemma_push_to_set_commute(filters.last());
        assert(init.push(filters.last()) =~= filters);
        assert(list.to_set() == filters.to_set());
    }
}

/// The ascending list of a set's members is the only one there is.
pub proof fn lemma_ascending_of(list: Seq<Seq<char>>)
    requires
        is_ascending(list),
    ensures
        ascending(list.to_set()) == list,
{
    let chosen = ascending(list.to_set());
    lemma_ascending_unique(chosen, list);
}

/// The canonical filter string depends on which filters there are, not on
/// their order nor on how often each occurs.
pub proof fn lemma_canonical_of_members(a: Seq<Seq<char>>, b: Seq<Seq<char>>)
    requires
        a.to_set() == b.to_set(),
    ensures
        canonical(a) == canonical(b),
{
}

/// Whether `a` comes before `b` in lexicographic order.
pub fn text_precedes(a: &str, b: &str) -> (before: bool)
    ensures
        before == precedes(a@, b@),
{
    let left = chars_of(a);
    let right = chars_of(b);
    let mut i: usize = 0;
    assert(left@.skip(0) =~= left@ && right@.skip(0) =~= right@);
    loop
        invariant
            i <= left.len(),
            i <= right.len(),
            left@ == a@,
            right@ == b@,
            precedes(a@, b@) == precedes(left@.skip(i as int), right@.skip(i as int)),
        decreases left.len() - i,
    {
        if i == right.len() {
            return false;
        }
        if i == left.len() {
            return true;
        }
        assert(left@.skip(i as int)[0] == left@[i as int]);
        assert(right@.skip(i as int)[0] == right@[i as int]);
        if left[i] != right[i] {
            return left[i] < right[i];
        }
        assert(left@.skip(i as int).skip(1) =~= left@.skip(i + 1));
        assert(right@.skip(i as int).skip(1) =~= right@.skip(i + 1));
        i += 1;
    }
}

/// Puts `item` into the ascending `list` at its place, unless it is there
/// already.
pub fn insert_ascending(list: &mut Vec<String>, item: String)
    requires
        is_ascending(texts(old(list)@)),
    ensures
        is_ascending(texts(final(list)@)),
        texts(final(list)@).to_set() == texts(old(list)@).to_set().insert(item@),
{
    let ghost before = texts(list@);
    let mut k: usize = 0;
    while k < list.len()
        invariant
            k <= list.len(),
            texts(list@) == before,
            forall|j: int| 0 <= j < k ==> precedes(before[j], item@),
        ensures
            k <= list.len(),
            texts(list@) == before,
            forall|j: int| 0 <= j < k ==> precedes(before[j], item@),
            k < list.len() ==> !precedes(before[k as int], item@),
        decreases list.len() - k,
    {
        if !text_precedes(list[k].as_str(), item.as_str()) {
            break;
        }
        k += 1;
    }
    if k < list.len() && same_text(list[k].as_str(), item.as_str()) {
        assert(before.to_set() =~= before.to_set().insert(item@)) by {
            assert(before.contains(before[k as int]));
        }
        return;
    }
    let ghost entry = item@;
    list.insert(k, item);
    proof {
        let after = texts(list@);
        assert(after =~= before.insert(k as int, entry));
        assert forall|i: int, j: int| 0 <= i < j < after.len() implies precedes(
            after[i],
            after[j],
        ) by {
            if j == k {
                assert(after[i] == before[i]);
            } else if i == k {
                assert(after[j] == before[j - 1]);
                lemma_precedes_connected(before[k as int], entry);
                if j - 1 > k {
                    lemma_precedes_transitive(entry, before[k as int], before[j - 1]);
                }
            } else {
                let oi = if i < k { i } else { i - 1 };
                let oj = if j < k { j } else { j - 1 };
                assert(after[i] == before[oi] && after[j] == before[oj]);
            }
        }
        assert forall|x: Seq<char>| after.to_set().contains(x) <==> before.to_set().insert(
            entry,
        ).contains(x) by {
            if after.contains(x) {
                let i = choose|i: int| 0 <= i < after.len() && after[i] == x;
                if i < k {
                    assert(before[i] == x);
                } else if i > k {
                    assert(before[i - 1] == x);
                }
            }
            if before.contains(x) {
                let i = choose|i: int| 0 <= i < before.len() && before[i] == x;
                if i < k {
                    assert(after[i] == x);
                } else {
                    assert(after[i + 1] == x);
                }
            }
            if x == entry {
                assert(after[k as int] == x);
            }
        }
        assert(after.to_set() =~= before.to_set().insert(entry));
    }
}

/// The entries of `list` written one after the other with `sep` between
/// neighbours.
pub fn join_with(list: &Vec<String>, sep: &str) -> (text: String)
    ensures
        text@ == joined(texts(list@), sep@),
{
    let mut text = String::new();
    if list.len() == 0 {
        return text;
    }
    text.append(list[0].as_str());
    assert(texts(list@).take(1) =~= seq![list@[0]@]);
    let mut i: usize = 1;
    while i < list.len()
        invariant
            1 <= i <= list.len(),
            text@ == joined(texts(list@).take(i as int), sep@),
        decreases list.len() - i,
    {
        text.append(sep);
        text.append(list[i].as_str());
        proof {
            let upto = texts(list@).take(i + 1);
            assert(upto.drop_last() =~= texts(list@).take(i as int));
            assert(text@ =~= joined(upto, sep@));
        }
        i += 1;
    }
    assert(texts(list@).take(i as int) =~= texts(list@));
    text
}

} // verus!
