//! Canonical listings of participants: identifiers in lexicographic order of their characters.
use vstd::prelude::*;
use vstd::relations::{sorted_by, total_ordering};

verus! {

/// `a` is at most `b` in lexicographic order of characters (by code point).
pub open spec fn lex_le(a: Seq<char>, b: Seq<char>) -> bool
    decreases a.len(),
{
    if a.len() == 0 {
        true
    } else if b.len() == 0 {
        false
    } else if a[0] != b[0] {
        a[0] < b[0]
    } else {
        lex_le(a.drop_first(), b.drop_first())
    }
}

/// The order in which listings are sorted.
pub open spec fn lex_leq() -> spec_fn(Seq<char>, Seq<char>) -> bool {
    |a: Seq<char>, b: Seq<char>| lex_le(a, b)
}

/// The characters of each identifier.
pub open spec fn name_views(names: Seq<String>) -> Seq<Seq<char>> {
    names.map_values(|s: String| s@)
}

/// `sorted` holds the identifiers of `names`, each as often, in lexicographic order.
pub open spec fn is_sorted_listing(names: Seq<Seq<char>>, sorted: Seq<Seq<char>>) -> bool {
    &&& sorted.to_multiset() == names.to_multiset()
    &&& sorted_by(sorted, lex_leq())
}

proof fn lemma_lex_reflexive(a: Seq<char>)
    ensures
        lex_le(a, a),
    decreases a.len(),
{
    if a.len() > 0 {
        lemma_lex_reflexive(a.drop_first());
    }
}

proof fn lemma_lex_antisymmetric(a: Seq<char>, b: Seq<char>)
    requires
        lex_le(a, b),
        lex_le(b, a),
    ensures
        a == b,
    decreases a.len(),
{
    if a.len() > 0 && b.len() > 0 {
        lemma_lex_antisymmetric(a.drop_first(), b.drop_first());
        assert(a =~= seq![a[0]] + a.drop_first());
        assert(b =~= seq![b[0]] + b.drop_first());
    } else {
        assert(a.len() == 0 && b.len() == 0);
        assert(a =~= b);
    }
}

proof fn lemma_lex_transitive(a: Seq<char>, b: Seq<char>, c: Seq<char>)
    requires
        lex_le(a, b),
        lex_le(b, c),
    ensures
        lex_le(a, c),
    decreases a.len(),
{
    if a.len() > 0 && b.len() > 0 && c.len() > 0 && a[0] == b[0] && b[0] == c[0] {
        lemma_lex_transitive(a.drop_first(), b.drop_first(), c.drop_first());
    }
}

proof fn lemma_lex_total(a: Seq<char>, b: Seq<char>)
    ensures
        lex_le(a, b) || lex_le(b, a),
    decreases a.len(),
{
    if a.len() > 0 && b.len() > 0 && a[0] == b[0] {
        lemma_lex_total(a.drop_first(), b.drop_first());
    }
}

/// Lexicographic order of characters is a total order.
pub proof fn lemma_lex_total_ordering()
    ensures
        total_ordering(lex_leq()),
{
    let leq = lex_leq();
    assert forall|a: Seq<char>| #[trigger] leq(a, a) by {
        lemma_lex_reflexive(a);
    }
    assert forall|a: Seq<char>, b: Seq<char>| #[trigger] leq(a, b) && #[trigger] leq(b, a) implies a
        == b by {
        lemma_lex_antisymmetric(a, b);
    }
    assert forall|a: Seq<char>, b: Seq<char>, c: Seq<char>| #[trigger] leq(a, b) && #[trigger] leq(
        b,
        c,
    ) implies leq(a, c) by {
        lemma_lex_transitive(a, b, c);
    }
    assert forall|a: Seq<char>, b: Seq<char>| #[trigger] leq(a, b) || #[trigger] leq(b, a) by {
        lemma_lex_total(a, b);
    }
}

/// Any two sorted listings of the same identifiers are equal.
pub proof fn lemma_sorted_listing_unique(names: Seq<Seq<char>>, s1: Seq<Seq<char>>, s2: Seq<Seq<char>>)
    requires
        is_sorted_listing(names, s1),
        is_sorted_listing(names, s2),
    ensures
        s1 == s2,
{
    lemma_lex_total_ordering();
    vstd::seq_lib::lemma_sorted_unique(s1, s2, lex_leq());
}

/// Whether `a` is at most `b` in lexicographic order of characters.
pub fn name_le(a: &str, b: &str) -> (r: bool)
    ensures
        r == lex_le(a@, b@),
{
    let la = a.unicode_len();
    let lb = b.unicode_len();
    let mut i: usize = 0;
    proof {
        assert(a@.skip(0) =~= a@);
        assert(b@.skip(0) =~= b@);
    }
    while i < la && i < lb
        invariant
            la == a@.len(),
            lb == b@.len(),
            i <= la,
            i <= lb,
            lex_le(a@, b@) == lex_le(a@.skip(i as int), b@.skip(i as int)),
        decreases la - i,
    {
        let ca = a.get_char(i);
        let cb = b.get_char(i);
        proof {
            assert(a@.skip(i as int)[0] == ca);
            assert(b@.skip(i as int)[0] == cb);
        }
        if ca != cb {
            return ca < cb;
        }
        proof {
            assert(a@.skip(i as int).drop_first() =~= a@.skip(i as int + 1));
            assert(b@.skip(i as int).drop_first() =~= b@.skip(i as int + 1));
        }
        i = i + 1;
    }
    i == la
}

/// The identifiers of `names` in lexicographic order.
pub fn sort_names(names: Vec<String>) -> (sorted: Vec<String>)
    ensures
        is_sorted_listing(name_views(names@), name_views(sorted@)),
{
    broadcast use vstd::seq_lib::group_to_multiset_ensures;

    proof {
        lemma_lex_total_ordering();
    }
    let ghost all = name_views(names@);
    let mut rest = names;
    let mut sorted: Vec<String> = Vec::new();
    while rest.len() > 0
        invariant
            total_ordering(lex_leq()),
            name_views(sorted@).to_multiset().add(name_views(rest@).to_multiset()) == all.to_multiset(),
            sorted_by(name_views(sorted@), lex_leq()),
            forall|x: int, y: int|
                0 <= x < sorted@.len() && 0 <= y < rest@.len() ==> lex_le(
                    #[trigger] sorted@[x]@,
                    #[trigger] rest@[y]@,
                ),
        decreases rest@.len(),
    {
        let mut best: usize = 0;
        let mut j: usize = 1;
        proof {
            let leq = lex_leq();
            assert(leq(rest@[0]@, rest@[0]@));
        }
        while j < rest.len()
            invariant
                total_ordering(lex_leq()),
                0 <= best < j <= rest@.len(),
                forall|y: int| 0 <= y < j ==> lex_le(rest@[best as int]@, #[trigger] rest@[y]@),
            decreases rest@.len() - j,
        {
            if !name_le(rest[best].as_str(), rest[j].as_str()) {
                proof {
                    let leq = lex_leq();
                    assert(!leq(rest@[best as int]@, rest@[j as int]@));
                    assert(leq(rest@[j as int]@, rest@[best as int]@));
                    assert forall|y: int| 0 <= y < j implies lex_le(
                        rest@[j as int]@,
                        #[trigger] rest@[y]@,
                    ) by {
                        assert(leq(rest@[best as int]@, rest@[y]@));
                    }
                    assert(leq(rest@[j as int]@, rest@[j as int]@));
                }
                best = j;
            }
            j = j + 1;
        }
        let ghost before_rest = rest@;
        let ghost before_sorted = sorted@;
        let next = rest.remove(best);
        proof {
            assert(name_views(rest@) =~= name_views(before_rest).remove(best as int));
            assert(name_views(before_rest)[best as int] == next@);
            vstd::seq_lib::to_multiset_remove(name_views(before_rest), best as int);
            vstd::seq_lib::to_multiset_contains(name_views(before_rest), next@);
            assert(name_views(before_rest).contains(next@));
            assert(name_views(before_rest).to_multiset().contains(next@));
        }
        sorted.push(next);
        proof {
            let leq = lex_leq();
            assert(name_views(sorted@) =~= name_views(before_sorted).push(next@));
            vstd::seq_lib::to_multiset_build(name_views(before_sorted), next@);
            assert(name_views(sorted@).to_multiset() == name_views(before_sorted).to_multiset().insert(
                next@,
            ));
            assert(name_views(sorted@).to_multiset().add(name_views(rest@).to_multiset())
                =~= name_views(before_sorted).to_multiset().add(
                name_views(before_rest).to_multiset(),
            ));
            assert forall|x: int, y: int| 0 <= x < y < sorted@.len() implies #[trigger] leq(
                name_views(sorted@)[x],
                name_views(sorted@)[y],
            ) by {
                if y == sorted@.len() - 1 {
                    assert(lex_le(before_sorted[x]@, before_rest[best as int]@));
                } else {
                    assert(leq(name_views(before_sorted)[x], name_views(before_sorted)[y]));
                }
            }
            assert forall|x: int, y: int|
                0 <= x < sorted@.len() && 0 <= y < rest@.len() implies lex_le(
                #[trigger] sorted@[x]@,
                #[trigger] rest@[y]@,
            ) by {
                let yy = if y < best { y } else { y + 1 };
                assert(rest@[y] == before_rest[yy]);
                if x < sorted@.len() - 1 {
                    assert(sorted@[x] == before_sorted[x]);
                } else {
                    assert(lex_le(before_rest[best as int]@, before_rest[yy]@));
                }
            }
        }
    }
    proof {
        assert(name_views(rest@) =~= Seq::<Seq<char>>::empty());
        assert(name_views(sorted@).to_multiset() =~= all.to_multiset());
    }
    sorted
}

} // verus!
