//! Deduplicated collections kept in plain vectors.
//!
//! Feature sets are strictly sorted vectors of small integers; sets of strings
//! (invite codes, module names) are vectors strictly sorted in lexicographic
//! order, hence duplicate-free.

use vstd::prelude::*;

use crate::text::{lemma_lex_total, lemma_lex_trans, lex_less, str_lex_less};

verus! {

/// Strictly increasing, hence duplicate-free.
pub open spec fn sorted_unique(s: Seq<u16>) -> bool {
    forall|i: int, j: int| 0 <= i < j < s.len() ==> s[i] < s[j]
}

/// All element views pairwise distinct.
pub open spec fn unique_strings(s: Seq<String>) -> bool {
    forall|i: int, j: int| 0 <= i < j < s.len() ==> s[i]@ != s[j]@
}

/// Taking one more element of a sequence adds exactly that element to the
/// set of what is taken.
pub proof fn lemma_take_step_to_set<A>(s: Seq<A>, m: int)
    requires
        0 <= m < s.len(),
    ensures
        s.take(m + 1).to_set() == s.take(m).to_set().insert(s[m]),
{
    let taken = s.take(m + 1);
    assert(taken.drop_last() =~= s.take(m));
    assert(taken.last() == s[m]);
    assert forall|e: A| taken.to_set().contains(e) implies s.take(m).to_set().insert(
        s[m],
    ).contains(e) by {
        let x = choose|x: int| 0 <= x < taken.len() && taken[x] == e;
        if x < taken.len() - 1 {
            assert(taken.drop_last()[x] == e);
            assert(taken.drop_last().contains(e));
        }
    }
    assert forall|e: A| s.take(m).to_set().insert(s[m]).contains(e) implies taken
        .to_set().contains(e) by {
        if e == s[m] {
            assert(taken[taken.len() - 1] == e);
        } else {
            let x = choose|x: int| 0 <= x < s.take(m).len() && s.take(m)[x] == e;
            assert(taken[x] == e);
        }
    }
    assert(taken.to_set() =~= s.take(m).to_set().insert(s[m]));
}

/// Strictly increasing in lexicographic order, hence duplicate-free.
pub open spec fn sorted_unique_strings(s: Seq<String>) -> bool {
    forall|i: int, j: int| 0 <= i < j < s.len() ==> lex_less(s[i]@, s[j]@)
}

/// A strictly sorted vector has pairwise distinct element views.
pub proof fn lemma_sorted_strings_unique(s: Seq<String>)
    requires
        sorted_unique_strings(s),
    ensures
        unique_strings(s),
{
    assert forall|i: int, j: int| 0 <= i < j < s.len() implies s[i]@ != s[j]@ by {
        lemma_lex_total(s[i]@, s[j]@);
    }
}

/// Insert `x` into the strictly sorted vector `v`, keeping it strictly sorted;
/// the vector afterwards holds exactly the old values and `x`.
pub fn insert_sorted(v: &mut Vec<u16>, x: u16)
    ensures
        sorted_unique(old(v)@) ==> sorted_unique(final(v)@),
        final(v)@.to_set() == old(v)@.to_set().insert(x),
{
    let mut idx: usize = 0;
    while idx < v.len() && v[idx] < x
        invariant
            idx <= v@.len(),
            v@ == old(v)@,
            forall|k: int| 0 <= k < idx ==> v@[k] < x,
        decreases v@.len() - idx,
    {
        idx = idx + 1;
    }
    if idx < v.len() && v[idx] == x {
        proof {
            assert(v@.contains(x));
            assert(v@.to_set() =~= old(v)@.to_set().insert(x));
        }
    } else {
        let ghost oldv = v@;
        v.insert(idx, x);
        proof {
            assert forall|e: u16| v@.to_set().contains(e) implies oldv.to_set().insert(
                x,
            ).contains(e) by {
                let k = choose|k: int| 0 <= k < v@.len() && v@[k] == e;
                if k < idx {
                    assert(oldv[k] == e);
                    assert(oldv.contains(e));
                } else if k > idx {
                    assert(oldv[k - 1] == e);
                    assert(oldv.contains(e));
                }
            }
            assert forall|e: u16| oldv.to_set().insert(x).contains(e) implies v@.to_set().contains(
                e,
            ) by {
                if e == x {
                    assert(v@[idx as int] == e);
                } else {
                    let k = choose|k: int| 0 <= k < oldv.len() && oldv[k] == e;
                    if k < idx {
                        assert(v@[k] == e);
                    } else {
                        assert(v@[k + 1] == e);
                    }
                }
            }
            assert(v@.to_set() =~= oldv.to_set().insert(x));
        }
    }
}

/// Position of the first element of the sorted vector `v` not below `x`.
fn lower_insert_pos(v: &Vec<String>, x: &String) -> (pos: usize)
    ensures
        pos <= v@.len(),
        forall|k: int| 0 <= k < pos ==> lex_less((#[trigger] v@[k])@, x@),
        pos < v@.len() ==> !lex_less(v@[pos as int]@, x@),
{
    let mut i: usize = 0;
    while i < v.len()
        invariant
            i <= v@.len(),
            forall|k: int| 0 <= k < i ==> lex_less((#[trigger] v@[k])@, x@),
        decreases v@.len() - i,
    {
        if !str_lex_less(v[i].as_str(), x.as_str()) {
            return i;
        }
        i = i + 1;
    }
    i
}

/// Insert `x` into the lexicographically sorted vector `v` unless an equal
/// string is present, keeping it strictly sorted; the element views
/// afterwards form exactly the old set of views plus `x`'s.
pub fn insert_sorted_string(v: &mut Vec<String>, x: &String)
    ensures
        sorted_unique_strings(old(v)@) ==> sorted_unique_strings(final(v)@) && unique_strings(
            final(v)@,
        ),
        final(v).deep_view().to_set() == old(v).deep_view().to_set().insert(x@),
{
    let pos = lower_insert_pos(v, x);
    if pos < v.len() && v[pos] == *x {
        proof {
            assert(v.deep_view()[pos as int] == x@);
            assert(v.deep_view().contains(x@));
            assert(v.deep_view().to_set() =~= old(v).deep_view().to_set().insert(x@));
            if sorted_unique_strings(v@) {
                lemma_sorted_strings_unique(v@);
            }
        }
    } else {
        let ghost oldv = v@;
        let ghost olds = v.deep_view();
        v.insert(pos, x.clone());
        proof {
            assert forall|k: int| 0 <= k < v.deep_view().len() implies v.deep_view()[k] == (if k
                < pos {
                olds[k]
            } else if k == pos {
                x@
            } else {
                olds[k - 1]
            }) by {
                if k < pos {
                    assert(v@[k] == oldv[k]);
                } else if k > pos {
                    assert(v@[k] == oldv[k - 1]);
                }
            }
            if sorted_unique_strings(oldv) {
                if pos < oldv.len() {
                    lemma_lex_total(oldv[pos as int]@, x@);
                }
                assert forall|i2: int, j2: int| 0 <= i2 < j2 < v@.len() implies lex_less(
                    v@[i2]@,
                    v@[j2]@,
                ) by {
                    if j2 < pos {
                    } else if i2 < pos && j2 == pos {
                        assert(lex_less(oldv[i2]@, x@));
                    } else if i2 < pos && j2 > pos {
                        assert(lex_less(oldv[i2]@, oldv[j2 - 1]@));
                    } else if i2 == pos {
                        assert(lex_less(x@, oldv[pos as int]@));
                        if j2 - 1 > pos {
                            lemma_lex_trans(x@, oldv[pos as int]@, oldv[j2 - 1]@);
                        }
                    } else {
                        assert(lex_less(oldv[i2 - 1]@, oldv[j2 - 1]@));
                    }
                }
                lemma_sorted_strings_unique(v@);
            }
            assert forall|e: Seq<char>| v.deep_view().to_set().contains(e) implies olds
                .to_set().insert(x@).contains(e) by {
                let k = choose|k: int| 0 <= k < v.deep_view().len() && v.deep_view()[k] == e;
                if k < pos {
                    assert(olds[k] == e);
                    assert(olds.contains(e));
                } else if k > pos {
                    assert(olds[k - 1] == e);
                    assert(olds.contains(e));
                }
            }
            assert forall|e: Seq<char>| olds.to_set().insert(x@).contains(e) implies v
                .deep_view().to_set().contains(e) by {
                if e == x@ {
                    assert(v.deep_view()[pos as int] == e);
                } else {
                    let k = choose|k: int| 0 <= k < olds.len() && olds[k] == e;
                    if k < pos {
                        assert(v.deep_view()[k] == e);
                    } else {
                        assert(v.deep_view()[k + 1] == e);
                    }
                }
            }
            assert(v.deep_view().to_set() =~= olds.to_set().insert(x@));
        }
    }
}

} // verus!
