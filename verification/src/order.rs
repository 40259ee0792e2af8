use vstd::prelude::*;

use crate::record::AliasDisplay;
use vstd::seq_lib::lemma_multiset_commutative;
use vstd::string::StrSliceExecFns;

verus! {

/// Strict lexicographic order on character sequences, by Unicode scalar
/// value: the order the listing sorts alias names by.
pub open spec fn lex_lt(a: Seq<char>, b: Seq<char>) -> bool
    decreases a.len(),
{
    if b.len() == 0 {
        false
    } else if a.len() == 0 {
        true
    } else if a[0] < b[0] {
        true
    } else if b[0] < a[0] {
        false
    } else {
        lex_lt(a.drop_first(), b.drop_first())
    }
}

/// Reflexive closure of `lex_lt`.
pub open spec fn lex_le(a: Seq<char>, b: Seq<char>) -> bool {
    lex_lt(a, b) || a == b
}

/// The strict order never relates a sequence to itself.
pub proof fn lemma_lex_lt_irrefl(a: Seq<char>)
    ensures
        !lex_lt(a, a),
    decreases a.len(),
{
    if a.len() > 0 {
        lemma_lex_lt_irrefl(a.drop_first());
    }
}

/// Any two sequences are related one way or the other: where neither is
/// strictly below the other, they are equal.
pub proof fn lemma_lex_total(a: Seq<char>, b: Seq<char>)
    requires
        !lex_lt(a, b),
        !lex_lt(b, a),
    ensures
        a == b,
    decreases a.len(),
{
    if a.len() == 0 && b.len() == 0 {
        assert(a =~= b);
    } else if a.len() > 0 && b.len() > 0 {
        lemma_lex_total(a.drop_first(), b.drop_first());
        assert(a.len() == b.len()) by {
            assert(a.drop_first().len() == b.drop_first().len());
        }
        assert(a[0] == b[0]);
        assert forall|i: int| 0 <= i < a.len() implies a[i] == b[i] by {
            if i > 0 {
                assert(a.drop_first()[i - 1] == b.drop_first()[i - 1]);
            }
        }
        assert(a =~= b);
    }
}

/// The strict order is transitive.
pub proof fn lemma_lex_lt_trans(a: Seq<char>, b: Seq<char>, c: Seq<char>)
    requires
        lex_lt(a, b),
        lex_lt(b, c),
    ensures
        lex_lt(a, c),
    decreases b.len(),
{
    if a.len() > 0 && b.len() > 0 && c.len() > 0 {
        if a[0] == b[0] && b[0] == c[0] {
            lemma_lex_lt_trans(a.drop_first(), b.drop_first(), c.drop_first());
        }
    }
}

/// The reflexive order is transitive.
pub proof fn lemma_lex_le_trans(a: Seq<char>, b: Seq<char>, c: Seq<char>)
    requires
        lex_le(a, b),
        lex_le(b, c),
    ensures
        lex_le(a, c),
{
    if lex_lt(a, b) && lex_lt(b, c) {
        lemma_lex_lt_trans(a, b, c);
    }
}

/// Decides `lex_le` on two strings.
pub fn str_le(a: &str, b: &str) -> (r: bool)
    ensures
        r == lex_le(a@, b@),
{
    let alen = a.unicode_len();
    let blen = b.unicode_len();
    let mut i: usize = 0;
    proof {
        assert(a@.skip(0) =~= a@);
        assert(b@.skip(0) =~= b@);
    }
    while i < alen && i < blen
        invariant
            alen == a@.len(),
            blen == b@.len(),
            0 <= i <= alen,
            i <= blen,
            forall|j: int| 0 <= j < i ==> a@[j] == b@[j],
            lex_lt(a@, b@) == lex_lt(a@.skip(i as int), b@.skip(i as int)),
        ensures
            alen == a@.len(),
            blen == b@.len(),
            0 <= i <= alen,
            i <= blen,
            forall|j: int| 0 <= j < i ==> a@[j] == b@[j],
            lex_lt(a@, b@) == lex_lt(a@.skip(i as int), b@.skip(i as int)),
            i < alen && i < blen ==> a@[i as int] != b@[i as int],
        decreases alen - i,
    {
        let ca = a.get_char(i);
        let cb = b.get_char(i);
        if ca < cb || cb < ca {
            break;
        }
        proof {
            assert(a@.skip(i as int)[0] == a@[i as int]);
            assert(b@.skip(i as int)[0] == b@[i as int]);
            assert(a@.skip(i as int).drop_first() =~= a@.skip(i as int + 1));
            assert(b@.skip(i as int).drop_first() =~= b@.skip(i as int + 1));
        }
        i += 1;
    }
    if i < alen && i < blen {
        // the first differing position decides the order
        let ca = a.get_char(i);
        let cb = b.get_char(i);
        proof {
            assert(a@.skip(i as int)[0] == a@[i as int]);
            assert(b@.skip(i as int)[0] == b@[i as int]);
            assert(a@[i as int] != b@[i as int]);
            assert(a@ != b@);
        }
        ca < cb
    } else if alen < blen {
        // `a` ran out first: it is a strict prefix of `b`
        proof {
            assert(a@.skip(i as int).len() == 0);
            assert(b@.skip(i as int).len() > 0);
        }
        true
    } else if alen == blen {
        // every position agreed and the lengths are the same
        proof {
            assert(a@ =~= b@);
        }
        true
    } else {
        // `b` is a strict prefix of `a`
        proof {
            assert(b@.skip(i as int).len() == 0);
            assert(a@ != b@);
        }
        false
    }
}

/// The listing order: each entry's alias name is no greater than any
/// later entry's.
pub open spec fn sorted_le(s: Seq<AliasDisplay>) -> bool {
    forall|i: int, j: int| 0 <= i < j < s.len() ==> lex_le(s[i].alias@, s[j].alias@)
}

/// Strictly ascending alias names: the sorted order of a listing whose
/// names are pairwise distinct.
pub open spec fn sorted_lt(s: Seq<AliasDisplay>) -> bool {
    forall|i: int, j: int| 0 <= i < j < s.len() ==> lex_lt(s[i].alias@, s[j].alias@)
}

/// Sorts listing entries by alias name, keeping exactly the given
/// entries.
pub fn sort_displays(v: Vec<AliasDisplay>) -> (r: Vec<AliasDisplay>)
    ensures
        sorted_le(r@),
        r@.to_multiset() == v@.to_multiset(),
{
    broadcast use vstd::seq_lib::group_to_multiset_ensures, vstd::seq_lib::lemma_multiset_commutative, vstd::multiset::group_multiset_axioms;

    let ghost full = v@;
    let mut src = v;
    let mut out: Vec<AliasDisplay> = Vec::new();
    proof {
        assert(out@.to_multiset().add(src@.to_multiset()) =~= full.to_multiset());
    }
    while src.len() > 0
        invariant
            sorted_le(out@),
            out@.to_multiset().add(src@.to_multiset()) == full.to_multiset(),
        decreases src.len(),
    {
        let ghost src0 = src@;
        let x = src.pop().unwrap();
        proof {
            src0.to_multiset_ensures();
            assert(src0.remove(src0.len() - 1) =~= src@);
            assert(src0.remove(src0.len() - 1).to_multiset() =~= src0.to_multiset().remove(x));
            assert(src@.to_multiset() =~= src0.to_multiset().remove(x));
        }
        let mut p: usize = 0;
        loop
            invariant
                p <= out.len(),
                sorted_le(out@),
                forall|j: int| 0 <= j < p ==> lex_le(out@[j].alias@, x.alias@),
            ensures
                p <= out.len(),
                forall|j: int| 0 <= j < p ==> lex_le(out@[j].alias@, x.alias@),
                p < out.len() ==> !lex_le(out@[p as int].alias@, x.alias@),
            decreases out.len() - p,
        {
            if p >= out.len() {
                break;
            }
            if !str_le(out[p].alias.as_str(), x.alias.as_str()) {
                break;
            }
            p += 1;
        }
        let ghost out0 = out@;
        out.insert(p, x);
        proof {
            assert(out@ == out0.insert(p as int, x));
            lemma_sorted_insert(out0, p as int, x);
            out0.subrange(0, p as int).to_multiset_ensures();
            assert(out0.subrange(0, p as int).push(x).to_multiset() =~= out0.subrange(
                0,
                p as int,
            ).to_multiset().insert(x));
            assert(out0 =~= out0.subrange(0, p as int) + out0.subrange(p as int, out0.len() as int));
            lemma_multiset_commutative(out0.subrange(0, p as int), out0.subrange(p as int, out0.len() as int));
            lemma_multiset_commutative(
                out0.subrange(0, p as int).push(x),
                out0.subrange(p as int, out0.len() as int),
            );
            assert(out@.to_multiset() =~= out0.to_multiset().insert(x));
            assert(out@.to_multiset().add(src@.to_multiset()) =~= full.to_multiset());
        }
    }
    out
}

/// Inserting an entry at the first position whose alias is not below it
/// keeps the listing sorted.
proof fn lemma_sorted_insert(s: Seq<AliasDisplay>, p: int, x: AliasDisplay)
    requires
        sorted_le(s),
        0 <= p <= s.len(),
        forall|j: int| 0 <= j < p ==> lex_le(s[j].alias@, x.alias@),
        p < s.len() ==> !lex_le(s[p].alias@, x.alias@),
    ensures
        sorted_le(s.insert(p, x)),
{
    let t = s.insert(p, x);
    if p < s.len() {
        lemma_lex_total_le(s[p].alias@, x.alias@);
    }
    assert forall|i: int, j: int| 0 <= i < j < t.len() implies lex_le(
        t[i].alias@,
        t[j].alias@,
    ) by {
        s.insert_ensures(p, x);
        if i < p && j == p {
            // t[i] is s[i], below x
        } else if i == p && j > p {
            // x is below s[p], which is below s[j - 1]
            if p < s.len() {
                if j - 1 > p {
                    lemma_lex_le_trans(x.alias@, s[p].alias@, s[j - 1].alias@);
                }
            }
        } else if i < p && j > p {
            if j - 1 > i {
                // both come from s
            } else {
                assert(i == j - 1 && p <= j - 1 && i < p);
            }
        }
    }
}

/// Where an entry is not below another, the other is strictly below it.
proof fn lemma_lex_total_le(a: Seq<char>, b: Seq<char>)
    requires
        !lex_le(a, b),
    ensures
        lex_lt(b, a),
{
    if !lex_lt(b, a) {
        lemma_lex_total(a, b);
    }
}

/// A sorted listing whose alias names are pairwise distinct is strictly
/// ascending.
pub proof fn lemma_sorted_le_distinct_lt(s: Seq<AliasDisplay>)
    requires
        sorted_le(s),
        forall|i: int, j: int|
            0 <= i < j < s.len() ==> s[i].alias@ != s[j].alias@,
    ensures
        sorted_lt(s),
{
    assert forall|i: int, j: int| 0 <= i < j < s.len() implies lex_lt(
        s[i].alias@,
        s[j].alias@,
    ) by {
        assert(lex_le(s[i].alias@, s[j].alias@));
    }
}

} // verus!
