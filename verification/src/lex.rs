use vstd::prelude::*;

verus! {

/// Lexicographic order on byte strings, the order in which the dictionary keeps its
/// token sequences: a proper prefix comes first, otherwise the first differing byte decides.
pub open spec fn lex_lt(a: Seq<u8>, b: Seq<u8>) -> bool
    decreases a.len(),
{
    if a.len() == 0 {
        b.len() > 0
    } else if b.len() == 0 {
        false
    } else if a[0] != b[0] {
        a[0] < b[0]
    } else {
        lex_lt(a.drop_first(), b.drop_first())
    }
}

pub proof fn lemma_lex_irreflexive(a: Seq<u8>)
    ensures
        !lex_lt(a, a),
    decreases a.len(),
{
    if a.len() > 0 {
        lemma_lex_irreflexive(a.drop_first());
    }
}

pub proof fn lemma_lex_asymmetric(a: Seq<u8>, b: Seq<u8>)
    requires
        lex_lt(a, b),
    ensures
        !lex_lt(b, a),
    decreases a.len(),
{
    if a.len() > 0 && b.len() > 0 && a[0] == b[0] {
        lemma_lex_asymmetric(a.drop_first(), b.drop_first());
    }
}

pub proof fn lemma_lex_transitive(a: Seq<u8>, b: Seq<u8>, c: Seq<u8>)
    requires
        lex_lt(a, b),
        lex_lt(b, c),
    ensures
        lex_lt(a, c),
    decreases a.len(),
{
    if a.len() > 0 && b.len() > 0 && c.len() > 0 && a[0] == b[0] && b[0] == c[0] {
        lemma_lex_transitive(a.drop_first(), b.drop_first(), c.drop_first());
    }
}

pub proof fn lemma_lex_total(a: Seq<u8>, b: Seq<u8>)
    requires
        a != b,
    ensures
        lex_lt(a, b) || lex_lt(b, a),
    decreases a.len(),
{
    if a.len() > 0 && b.len() > 0 && a[0] == b[0] {
        if a.drop_first() == b.drop_first() {
            assert(a.len() == b.len()) by {
                assert(a.drop_first().len() == b.drop_first().len());
            }
            assert(a =~= b) by {
                assert forall|i: int| 0 <= i < a.len() implies a[i] == b[i] by {
                    if i > 0 {
                        assert(a[i] == a.drop_first()[i - 1]);
                        assert(b[i] == b.drop_first()[i - 1]);
                    }
                }
            }
        }
        lemma_lex_total(a.drop_first(), b.drop_first());
    } else if a.len() == 0 && b.len() == 0 {
        assert(a =~= b);
    }
}

/// A byte string comes no earlier than any of its prefixes.
pub proof fn lemma_prefix_not_less(x: Seq<u8>, k: Seq<u8>)
    requires
        x.is_prefix_of(k),
    ensures
        !lex_lt(k, x),
    decreases x.len(),
{
    if x.len() > 0 {
        assert(k[0] == x[0]) by {
            assert(x[0] == k.subrange(0, x.len() as int)[0]);
        }
        assert(x.drop_first().is_prefix_of(k.drop_first())) by {
            assert forall|i: int| 0 <= i < x.len() - 1 implies x.drop_first()[i] == k.drop_first().subrange(
                0,
                x.len() - 1,
            )[i] by {
                assert(x[i + 1] == k.subrange(0, x.len() as int)[i + 1]);
            }
            assert(x.drop_first() =~= k.drop_first().subrange(0, x.len() - 1));
        }
        lemma_prefix_not_less(x.drop_first(), k.drop_first());
    }
}

/// The byte strings that start with `x` come one after another in lexicographic order:
/// once a string at or after `x` does not start with `x`, no later one does.
pub proof fn lemma_prefix_contiguous(x: Seq<u8>, k: Seq<u8>, k2: Seq<u8>)
    requires
        !lex_lt(k, x),
        !x.is_prefix_of(k),
        lex_lt(k, k2),
    ensures
        !x.is_prefix_of(k2),
    decreases x.len(),
{
    if x.len() == 0 {
        assert(x.is_prefix_of(k)) by {
            assert(x =~= k.subrange(0, 0));
        }
    } else if x.is_prefix_of(k2) {
        assert(k2[0] == x[0]) by {
            assert(x[0] == k2.subrange(0, x.len() as int)[0]);
        }
        if k[0] != x[0] {
            assert(lex_lt(k2, k));
            lemma_lex_asymmetric(k, k2);
        } else {
            let x1 = x.drop_first();
            let k1 = k.drop_first();
            let k21 = k2.drop_first();
            assert(!x1.is_prefix_of(k1)) by {
                if x1.is_prefix_of(k1) {
                    assert(x =~= k.subrange(0, x.len() as int)) by {
                        assert forall|i: int| 0 <= i < x.len() implies x[i] == k.subrange(0, x.len() as int)[i] by {
                            if i > 0 {
                                assert(x1[i - 1] == k1.subrange(0, x1.len() as int)[i - 1]);
                            }
                        }
                    }
                }
            }
            assert(x1.is_prefix_of(k21)) by {
                assert forall|i: int| 0 <= i < x1.len() implies x1[i] == k21.subrange(0, x1.len() as int)[i] by {
                    assert(x[i + 1] == k2.subrange(0, x.len() as int)[i + 1]);
                }
                assert(x1 =~= k21.subrange(0, x1.len() as int));
            }
            lemma_prefix_contiguous(x1, k1, k21);
        }
    }
}

proof fn lemma_lex_skip(a: Seq<u8>, b: Seq<u8>, i: int)
    requires
        0 <= i <= a.len(),
        i <= b.len(),
        forall|k: int| 0 <= k < i ==> a[k] == b[k],
    ensures
        lex_lt(a, b) == lex_lt(a.skip(i), b.skip(i)),
    decreases i,
{
    if i > 0 {
        assert forall|k: int| 0 <= k < i - 1 implies a.drop_first()[k] == b.drop_first()[k] by {
            assert(a[k + 1] == b[k + 1]);
        }
        lemma_lex_skip(a.drop_first(), b.drop_first(), i - 1);
        assert(a.drop_first().skip(i - 1) =~= a.skip(i));
        assert(b.drop_first().skip(i - 1) =~= b.skip(i));
    } else {
        assert(a.skip(0) =~= a);
        assert(b.skip(0) =~= b);
    }
}

/// Whether `a` comes before `b` in lexicographic order.
pub fn lex_less(a: &[u8], b: &[u8]) -> (r: bool)
    ensures
        r == lex_lt(a@, b@),
{
    let mut i: usize = 0;
    while i < a.len() && i < b.len() && a[i] == b[i]
        invariant
            i <= a@.len(),
            i <= b@.len(),
            forall|k: int| 0 <= k < i ==> a@[k] == b@[k],
        decreases a@.len() - i,
    {
        i = i + 1;
    }
    proof {
        lemma_lex_skip(a@, b@, i as int);
        if i < a@.len() && i < b@.len() {
            assert(a@.skip(i as int)[0] == a@[i as int]);
            assert(b@.skip(i as int)[0] == b@[i as int]);
        }
    }
    if i == a.len() {
        i < b.len()
    } else if i == b.len() {
        false
    } else {
        a[i] < b[i]
    }
}

} // verus!
