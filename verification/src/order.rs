//! Three-way comparisons used for ordering page numbers and search results.

use vstd::prelude::*;

verus! {

/// Outcome of a three-way comparison.
#[derive(Clone, Copy, Debug, PartialEq, Eq, Structural)]
pub enum Cmp {
    Lt,
    Eq,
    Gt,
}

/// The mirror image of a comparison outcome.
pub open spec fn flip_cmp(c: Cmp) -> Cmp {
    match c {
        Cmp::Lt => Cmp::Gt,
        Cmp::Eq => Cmp::Eq,
        Cmp::Gt => Cmp::Lt,
    }
}

/// Lexicographic comparison of two character sequences by code point.
/// A proper prefix sorts before any extension of it.
pub open spec fn str_cmp(a: Seq<char>, b: Seq<char>) -> Cmp
    decreases a.len(),
{
    if a.len() == 0 && b.len() == 0 {
        Cmp::Eq
    } else if a.len() == 0 {
        Cmp::Lt
    } else if b.len() == 0 {
        Cmp::Gt
    } else if (a[0] as u32) < (b[0] as u32) {
        Cmp::Lt
    } else if (b[0] as u32) < (a[0] as u32) {
        Cmp::Gt
    } else {
        str_cmp(a.drop_first(), b.drop_first())
    }
}

/// `a` sorts no later than `b`.
pub open spec fn str_le(a: Seq<char>, b: Seq<char>) -> bool {
    str_cmp(a, b) != Cmp::Gt
}

/// Two character sequences compare equal exactly when they are the same sequence.
pub proof fn lemma_str_cmp_eq(a: Seq<char>, b: Seq<char>)
    ensures
        (str_cmp(a, b) == Cmp::Eq) <==> (a == b),
    decreases a.len(),
{
    if a.len() == 0 && b.len() == 0 {
        assert(a =~= b);
    } else if a.len() != 0 && b.len() != 0 {
        if (a[0] as u32) == (b[0] as u32) {
            vstd::utf8::char_u32_cast(a[0], a[0] as u32);
            vstd::utf8::char_u32_cast(b[0], b[0] as u32);
            assert(a[0] == b[0]);
            lemma_str_cmp_eq(a.drop_first(), b.drop_first());
            if str_cmp(a, b) == Cmp::Eq {
                assert(a.drop_first() == b.drop_first());
                assert(a.len() == b.len());
                assert forall|i: int| 0 <= i < a.len() implies a[i] == b[i] by {
                    if i > 0 {
                        assert(a[i] == a.drop_first()[i - 1]);
                        assert(b[i] == b.drop_first()[i - 1]);
                    }
                }
                assert(a =~= b);
            }
            if a == b {
                assert(a.drop_first() == b.drop_first());
            }
        } else {
            assert(a[0] != b[0]);
        }
    }
}

/// Swapping the arguments of the comparison mirrors its outcome.
pub proof fn lemma_str_cmp_flip(a: Seq<char>, b: Seq<char>)
    ensures
        str_cmp(b, a) == flip_cmp(str_cmp(a, b)),
    decreases a.len(),
{
    if a.len() != 0 && b.len() != 0 && (a[0] as u32) == (b[0] as u32) {
        lemma_str_cmp_flip(a.drop_first(), b.drop_first());
    }
}

/// The order is transitive, and a strict step on either side keeps it strict.
pub proof fn lemma_str_cmp_trans(a: Seq<char>, b: Seq<char>, c: Seq<char>)
    requires
        str_le(a, b),
        str_le(b, c),
    ensures
        str_le(a, c),
        (str_cmp(a, b) == Cmp::Lt || str_cmp(b, c) == Cmp::Lt) ==> str_cmp(a, c) == Cmp::Lt,
    decreases a.len(),
{
    if a.len() == 0 {
        // str_cmp(a, c) is Eq or Lt; when either premise is strict, c is nonempty.
        if str_cmp(a, b) == Cmp::Lt || str_cmp(b, c) == Cmp::Lt {
            assert(c.len() != 0);
        }
    } else {
        assert(b.len() != 0);
        assert(c.len() != 0);
        if (a[0] as u32) < (c[0] as u32) {
        } else {
            assert((a[0] as u32) <= (b[0] as u32));
            assert((b[0] as u32) <= (c[0] as u32));
            assert((a[0] as u32) == (b[0] as u32));
            assert((b[0] as u32) == (c[0] as u32));
            lemma_str_cmp_trans(a.drop_first(), b.drop_first(), c.drop_first());
        }
    }
}

/// Comparing two equal characters with a skipped common prefix leaves the
/// outcome unchanged.
pub proof fn lemma_str_cmp_skip(a: Seq<char>, b: Seq<char>, i: int)
    requires
        0 <= i <= a.len(),
        i <= b.len(),
        forall|j: int| 0 <= j < i ==> a[j] == b[j],
    ensures
        str_cmp(a, b) == str_cmp(a.skip(i), b.skip(i)),
    decreases i,
{
    if i == 0 {
        assert(a.skip(0) =~= a);
        assert(b.skip(0) =~= b);
    } else {
        assert(a[0] == b[0]);
        assert(str_cmp(a, b) == str_cmp(a.drop_first(), b.drop_first()));
        assert(forall|j: int|
            0 <= j < i - 1 ==> #[trigger] a.drop_first()[j] == b.drop_first()[j]);
        lemma_str_cmp_skip(a.drop_first(), b.drop_first(), i - 1);
        assert(a.drop_first().skip(i - 1) =~= a.skip(i));
        assert(b.drop_first().skip(i - 1) =~= b.skip(i));
    }
}

/// Compare two string slices lexicographically by code point.
pub fn str_compare(a: &str, b: &str) -> (r: Cmp)
    ensures
        r == str_cmp(a@, b@),
{
    let a_len = a.unicode_len();
    let b_len = b.unicode_len();
    let mut i: usize = 0;
    loop
        invariant
            i <= a_len,
            i <= b_len,
            a_len == a@.len(),
            b_len == b@.len(),
            forall|j: int| 0 <= j < i ==> a@[j] == b@[j],
        decreases a_len - i,
    {
        proof {
            lemma_str_cmp_skip(a@, b@, i as int);
        }
        if i == a_len && i == b_len {
            return Cmp::Eq;
        }
        if i == a_len {
            return Cmp::Lt;
        }
        if i == b_len {
            return Cmp::Gt;
        }
        let ca = a.get_char(i);
        let cb = b.get_char(i);
        if (ca as u32) < (cb as u32) {
            assert(a@.skip(i as int)[0] == ca);
            assert(b@.skip(i as int)[0] == cb);
            return Cmp::Lt;
        }
        if (cb as u32) < (ca as u32) {
            assert(a@.skip(i as int)[0] == ca);
            assert(b@.skip(i as int)[0] == cb);
            return Cmp::Gt;
        }
        proof {
            vstd::utf8::char_u32_cast(ca, ca as u32);
            vstd::utf8::char_u32_cast(cb, cb as u32);
        }
        assert(ca == cb);
        i = i + 1;
    }
}

/// Compare optional character sequences: an absent value sorts before any
/// present one.
pub open spec fn opt_str_cmp(a: Option<Seq<char>>, b: Option<Seq<char>>) -> Cmp {
    match (a, b) {
        (Option::None, Option::None) => Cmp::Eq,
        (Option::None, Option::Some(_)) => Cmp::Lt,
        (Option::Some(_), Option::None) => Cmp::Gt,
        (Option::Some(x), Option::Some(y)) => str_cmp(x, y),
    }
}

/// Two optional character sequences compare equal exactly when they are equal.
pub proof fn lemma_opt_str_cmp_eq(a: Option<Seq<char>>, b: Option<Seq<char>>)
    ensures
        (opt_str_cmp(a, b) == Cmp::Eq) <==> (a == b),
{
    if a is Some && b is Some {
        lemma_str_cmp_eq(a->0, b->0);
    }
}

/// Swapping the arguments mirrors the outcome.
pub proof fn lemma_opt_str_cmp_flip(a: Option<Seq<char>>, b: Option<Seq<char>>)
    ensures
        opt_str_cmp(b, a) == flip_cmp(opt_str_cmp(a, b)),
{
    if a is Some && b is Some {
        lemma_str_cmp_flip(a->0, b->0);
    }
}

/// Transitivity, keeping strict steps strict.
pub proof fn lemma_opt_str_cmp_trans(
    a: Option<Seq<char>>,
    b: Option<Seq<char>>,
    c: Option<Seq<char>>,
)
    requires
        opt_str_cmp(a, b) != Cmp::Gt,
        opt_str_cmp(b, c) != Cmp::Gt,
    ensures
        opt_str_cmp(a, c) != Cmp::Gt,
        (opt_str_cmp(a, b) == Cmp::Lt || opt_str_cmp(b, c) == Cmp::Lt) ==> opt_str_cmp(a, c)
            == Cmp::Lt,
{
    if a is Some && b is Some && c is Some {
        lemma_str_cmp_trans(a->0, b->0, c->0);
    }
}

/// Compare optional identities: an absent id sorts before any present one.
pub open spec fn id_cmp(a: Option<int>, b: Option<int>) -> Cmp {
    match (a, b) {
        (Option::None, Option::None) => Cmp::Eq,
        (Option::None, Option::Some(_)) => Cmp::Lt,
        (Option::Some(_), Option::None) => Cmp::Gt,
        (Option::Some(x), Option::Some(y)) => if x < y {
            Cmp::Lt
        } else if y < x {
            Cmp::Gt
        } else {
            Cmp::Eq
        },
    }
}

} // verus!
