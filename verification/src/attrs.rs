//! Element attributes: a map from name to value kept sorted by name, so
//! that iteration runs in name order.

use vstd::prelude::*;

use crate::text::{
    copy_str, lemma_seq_lt_irreflexive, lemma_seq_lt_total, lemma_seq_lt_transitive, seq_lt,
    str_eq, str_lt,
};

verus! {

/// One attribute: its name and value.
#[derive(Debug)]
pub struct Attr {
    pub name: String,
    pub value: String,
}

/// Names strictly increase along the list (so no name occurs twice).
pub open spec fn attrs_sorted(a: Seq<Attr>) -> bool {
    forall|i: int, j: int| 0 <= i < j < a.len() ==> seq_lt(#[trigger] a[i].name@, #[trigger] a[j].name@)
}

/// The value stored under `name`, if any (the last entry of that name;
/// in a sorted list there is at most one).
pub open spec fn attr_lookup(a: Seq<Attr>, name: Seq<char>) -> Option<Seq<char>>
    decreases a.len(),
{
    if a.len() == 0 {
        None
    } else if a.last().name@ == name {
        Some(a.last().value@)
    } else {
        attr_lookup(a.drop_last(), name)
    }
}

/// In a sorted list, looking up an entry's name finds that entry's value.
pub proof fn lemma_lookup_at(a: Seq<Attr>, i: int)
    requires
        attrs_sorted(a),
        0 <= i < a.len(),
    ensures
        attr_lookup(a, a[i].name@) == Some(a[i].value@),
    decreases a.len(),
{
    if i < a.len() - 1 {
        assert(seq_lt(a[i].name@, a[a.len() - 1].name@));
        lemma_seq_lt_irreflexive(a[i].name@);
        let b = a.drop_last();
        assert(b[i] == a[i]);
        lemma_lookup_at(b, i);
    }
}

/// Looking up a name that no entry has finds nothing.
pub proof fn lemma_lookup_absent(a: Seq<Attr>, n: Seq<char>)
    requires
        forall|k: int| 0 <= k < a.len() ==> (#[trigger] a[k]).name@ != n,
    ensures
        attr_lookup(a, n) is None,
    decreases a.len(),
{
    if a.len() > 0 {
        let b = a.drop_last();
        assert forall|k: int| 0 <= k < b.len() implies (#[trigger] b[k]).name@ != n by {
            assert(b[k] == a[k]);
        }
        lemma_lookup_absent(b, n);
    }
}

/// The value stored under `name` (`BTreeMap::get`).
pub fn attr_get<'a>(attrs: &'a Vec<Attr>, name: &str) -> (r: Option<&'a String>)
    requires
        attrs_sorted(attrs@),
    ensures
        match r {
            Some(v) => attr_lookup(attrs@, name@) == Some(v@),
            None => attr_lookup(attrs@, name@) is None,
        },
{
    let mut i: usize = 0;
    while i < attrs.len()
        invariant
            i <= attrs.len(),
            attrs_sorted(attrs@),
            forall|k: int| 0 <= k < i ==> (#[trigger] attrs@[k]).name@ != name@,
        decreases attrs.len() - i,
    {
        if str_eq(attrs[i].name.as_str(), name) {
            proof {
                lemma_lookup_at(attrs@, i as int);
            }
            return Some(&attrs[i].value);
        }
        i += 1;
    }
    proof {
        lemma_lookup_absent(attrs@, name@);
    }
    None
}

/// Stores `value` under `name`. An existing entry is replaced when
/// `overwrite` holds and kept otherwise (`BTreeMap::insert` and
/// `entry(..).or_insert(..)`).
pub fn attr_insert(attrs: &mut Vec<Attr>, name: String, value: String, overwrite: bool)
    requires
        attrs_sorted(old(attrs)@),
    ensures
        attrs_sorted(final(attrs)@),
        forall|n: Seq<char>|
            #![trigger attr_lookup(final(attrs)@, n)]
            attr_lookup(final(attrs)@, n) == if n == name@ && (overwrite || attr_lookup(
                old(attrs)@,
                n,
            ) is None) {
                Some(value@)
            } else {
                attr_lookup(old(attrs)@, n)
            },
{
    let ghost a0 = attrs@;
    let mut i: usize = 0;
    while i < attrs.len() && str_lt(attrs[i].name.as_str(), name.as_str())
        invariant
            i <= attrs.len(),
            attrs@ == a0,
            forall|k: int| 0 <= k < i ==> seq_lt((#[trigger] a0[k]).name@, name@),
        decreases attrs.len() - i,
    {
        i += 1;
    }
    if i < attrs.len() && str_eq(attrs[i].name.as_str(), name.as_str()) {
        proof {
            lemma_lookup_at(a0, i as int);
        }
        if overwrite {
            let n2 = attrs[i].name.clone();
            attrs.set(i, Attr { name: n2, value });
            proof {
                assert forall|p: int, q: int| 0 <= p < q < attrs@.len() implies seq_lt(
                    #[trigger] attrs@[p].name@,
                    #[trigger] attrs@[q].name@,
                ) by {
                    assert(seq_lt(a0[p].name@, a0[q].name@));
                }
                lemma_lookup_at(attrs@, i as int);
                assert forall|n: Seq<char>| #![trigger attr_lookup(attrs@, n)] n != name@ implies attr_lookup(attrs@, n) == attr_lookup(a0, n) by {
                    if exists|k: int| 0 <= k < a0.len() && (#[trigger] a0[k]).name@ == n {
                        let k = choose|k: int| 0 <= k < a0.len() && (#[trigger] a0[k]).name@ == n;
                        lemma_lookup_at(a0, k);
                        lemma_lookup_at(attrs@, k);
                    } else {
                        assert forall|k: int| 0 <= k < attrs@.len() implies (#[trigger] attrs@[k]).name@ != n by {
                            assert(attrs@[k].name@ == a0[k].name@);
                        }
                        lemma_lookup_absent(a0, n);
                        lemma_lookup_absent(attrs@, n);
                    }
                }
            }
        }
        return;
    }
    proof {
        if i < a0.len() {
            lemma_seq_lt_total(a0[i as int].name@, name@);
        }
    }
    attrs.insert(i, Attr { name, value });
    proof {
        let a1 = attrs@;
        assert forall|p: int, q: int| 0 <= p < q < a1.len() implies seq_lt(
            #[trigger] a1[p].name@,
            #[trigger] a1[q].name@,
        ) by {
            if q < i {
                assert(seq_lt(a0[p].name@, a0[q].name@));
            } else if q == i {
                assert(a1[q].name@ == name@);
            } else if p == i {
                // name < a0[i] <= a0[q-1]
                if q - 1 > i {
                    assert(seq_lt(a0[i as int].name@, a0[q - 1].name@));
                    lemma_seq_lt_transitive(name@, a0[i as int].name@, a0[q - 1].name@);
                }
            } else if p < i {
                // a0[p] < name < a0[q-1]
                if q - 1 > i {
                    assert(seq_lt(a0[i as int].name@, a0[q - 1].name@));
                    lemma_seq_lt_transitive(name@, a0[i as int].name@, a0[q - 1].name@);
                }
                lemma_seq_lt_transitive(a0[p].name@, name@, a0[q - 1].name@);
            } else {
                assert(seq_lt(a0[p - 1].name@, a0[q - 1].name@));
            }
        }
        lemma_lookup_at(a1, i as int);
        assert(attr_lookup(a0, name@) is None) by {
            assert forall|k: int| 0 <= k < a0.len() implies (#[trigger] a0[k]).name@ != name@ by {
                if k < i {
                    lemma_seq_lt_irreflexive(name@);
                } else if k > i {
                    assert(seq_lt(a0[i as int].name@, a0[k].name@));
                    if a0[k].name@ == name@ {
                        lemma_seq_lt_transitive(name@, a0[i as int].name@, name@);
                        lemma_seq_lt_irreflexive(name@);
                    }
                } else {
                    lemma_seq_lt_irreflexive(name@);
                }
            }
            lemma_lookup_absent(a0, name@);
        }
        assert forall|n: Seq<char>| #![trigger attr_lookup(a1, n)] n != name@ implies attr_lookup(a1, n) == attr_lookup(a0, n) by {
            if exists|k: int| 0 <= k < a0.len() && (#[trigger] a0[k]).name@ == n {
                let k = choose|k: int| 0 <= k < a0.len() && (#[trigger] a0[k]).name@ == n;
                lemma_lookup_at(a0, k);
                if k < i {
                    assert(a1[k] == a0[k]);
                    lemma_lookup_at(a1, k);
                } else {
                    assert(a1[k + 1] == a0[k]);
                    lemma_lookup_at(a1, k + 1);
                }
            } else {
                assert forall|k: int| 0 <= k < a1.len() implies (#[trigger] a1[k]).name@ != n by {
                    if k < i {
                        assert(a1[k] == a0[k]);
                    } else if k > i {
                        assert(a1[k] == a0[k - 1]);
                    }
                }
                lemma_lookup_absent(a0, n);
                lemma_lookup_absent(a1, n);
            }
        }
    }
}

/// The attribute map holding `pairs`, a later pair replacing an earlier one
/// of the same name (collecting into a `BTreeMap`).
pub fn attrs_from_pairs(pairs: Vec<(String, String)>) -> (a: Vec<Attr>)
    ensures
        attrs_sorted(a@),
        forall|n: Seq<char>|
            #![trigger attr_lookup(a@, n)]
            attr_lookup(a@, n) == last_pair_value(pairs@, n),
{
    let mut a: Vec<Attr> = Vec::new();
    let mut i: usize = 0;
    while i < pairs.len()
        invariant
            i <= pairs.len(),
            attrs_sorted(a@),
            forall|n: Seq<char>|
                #![trigger attr_lookup(a@, n)]
                attr_lookup(a@, n) == last_pair_value(pairs@.take(i as int), n),
        decreases pairs.len() - i,
    {
        let name = copy_str(pairs[i].0.as_str());
        let value = copy_str(pairs[i].1.as_str());
        attr_insert(&mut a, name, value, true);
        proof {
            assert(pairs@.take(i + 1).drop_last() =~= pairs@.take(i as int));
        }
        i += 1;
    }
    proof {
        assert(pairs@.take(pairs.len() as int) =~= pairs@);
    }
    a
}

/// The value of the last pair named `n`, if any.
pub open spec fn last_pair_value(pairs: Seq<(String, String)>, n: Seq<char>) -> Option<Seq<char>>
    decreases pairs.len(),
{
    if pairs.len() == 0 {
        None
    } else if pairs.last().0@ == n {
        Some(pairs.last().1@)
    } else {
        last_pair_value(pairs.drop_last(), n)
    }
}

/// A copy of an attribute list.
pub fn attrs_copy(a: &Vec<Attr>) -> (r: Vec<Attr>)
    ensures
        r@.len() == a@.len(),
        forall|i: int| 0 <= i < a@.len() ==> (#[trigger] r@[i]).name@ == a@[i].name@ && r@[i].value@ == a@[i].value@,
{
    let mut r: Vec<Attr> = Vec::new();
    let mut i: usize = 0;
    while i < a.len()
        invariant
            i <= a.len(),
            r@.len() == i,
            forall|k: int| 0 <= k < i ==> (#[trigger] r@[k]).name@ == a@[k].name@ && r@[k].value@ == a@[k].value@,
        decreases a.len() - i,
    {
        r.push(Attr { name: copy_str(a[i].name.as_str()), value: copy_str(a[i].value.as_str()) });
        i += 1;
    }
    r
}

} // verus!
