//! Per-score deduplication of set-valued fields, and the global contributor
//! registry in which every contributor name is kept exactly once.

use vstd::prelude::*;

use crate::model::seq_views;
use crate::search::strings_contain;

verus! {

/// No value occurs twice.
pub open spec fn distinct_strs(s: Seq<Seq<char>>) -> bool {
    forall|i: int, j: int| 0 <= i < j < s.len() ==> s[i] != s[j]
}

/// Keep the first occurrence of every value, dropping later repetitions.
pub open spec fn dedup_v(s: Seq<Seq<char>>) -> Seq<Seq<char>>
    decreases s.len(),
{
    if s.len() == 0 {
        s
    } else {
        let head = dedup_v(s.drop_last());
        if s.drop_last().contains(s.last()) {
            head
        } else {
            head.push(s.last())
        }
    }
}

/// Deduplication yields the distinct values of its input, and leaves an
/// already distinct input unchanged.
pub proof fn lemma_dedup_v_ensures(s: Seq<Seq<char>>)
    ensures
        distinct_strs(dedup_v(s)),
        forall|x: Seq<char>| #[trigger] dedup_v(s).contains(x) <==> s.contains(x),
        distinct_strs(s) ==> dedup_v(s) == s,
    decreases s.len(),
{
    if s.len() > 0 {
        lemma_dedup_v_ensures(s.drop_last());
        let head = dedup_v(s.drop_last());
        let out = dedup_v(s);
        assert forall|x: Seq<char>| #[trigger] out.contains(x) <==> s.contains(x) by {
            if out.contains(x) {
                let w = choose|w: int| 0 <= w < out.len() && out[w] == x;
                if w < head.len() {
                    assert(head.contains(x));
                    let v = choose|v: int|
                        0 <= v < s.drop_last().len() && s.drop_last()[v] == x;
                    assert(s[v] == x);
                } else {
                    assert(out[w] == s.last());
                    assert(s[s.len() - 1] == x);
                }
            }
            if s.contains(x) {
                let w = choose|w: int| 0 <= w < s.len() && s[w] == x;
                if w < s.len() - 1 {
                    assert(s.drop_last()[w] == x);
                    assert(head.contains(x));
                    let v = choose|v: int| 0 <= v < head.len() && head[v] == x;
                    assert(out[v] == x);
                } else {
                    if s.drop_last().contains(x) {
                        let v = choose|v: int| 0 <= v < head.len() && head[v] == x;
                        assert(out[v] == x);
                    } else {
                        assert(out[out.len() - 1] == x);
                    }
                }
            }
        }
        if !s.drop_last().contains(s.last()) {
            assert forall|i: int, j: int| 0 <= i < j < out.len() implies out[i] != out[j] by {
                if j == out.len() - 1 {
                    assert(head.contains(out[i]));
                    assert(s.drop_last().contains(out[i]));
                    assert(out[j] == s.last());
                } else {
                    assert(out[i] == head[i]);
                    assert(out[j] == head[j]);
                }
            }
        }
        if distinct_strs(s) {
            assert(distinct_strs(s.drop_last()));
            assert(!s.drop_last().contains(s.last())) by {
                if s.drop_last().contains(s.last()) {
                    let v = choose|v: int|
                        0 <= v < s.drop_last().len() && s.drop_last()[v] == s.last();
                    assert(s[v] == s[s.len() - 1]);
                }
            }
            assert(out =~= s);
        }
    }
}

/// Copy the strings, keeping only the first occurrence of each value.
pub fn dedup_strings(v: &Vec<String>) -> (r: Vec<String>)
    ensures
        seq_views(r@) == dedup_v(seq_views(v@)),
{
    let ghost m = seq_views(v@);
    let mut out: Vec<String> = Vec::new();
    let mut i: usize = 0;
    while i < v.len()
        invariant
            i <= v@.len(),
            m == seq_views(v@),
            seq_views(out@) == dedup_v(m.take(i as int)),
        decreases v@.len() - i,
    {
        proof {
            assert(m.take(i as int + 1).drop_last() =~= m.take(i as int));
            assert(m.take(i as int + 1).last() == m[i as int]);
            lemma_dedup_v_ensures(m.take(i as int));
        }
        let present = strings_contain(&out, &v[i]);
        proof {
            assert(v[i as int]@ == m[i as int]);
            assert(present == seq_views(out@).contains(m[i as int])) by {
                if crate::search::strs_contain(seq_views(out@), m[i as int]) {
                    assert(seq_views(out@).contains(m[i as int]));
                }
                if seq_views(out@).contains(m[i as int]) {
                    let w = choose|w: int|
                        0 <= w < seq_views(out@).len() && seq_views(out@)[w] == m[i as int];
                    assert(crate::search::strs_contain(seq_views(out@), m[i as int]));
                }
            }
            assert(present == m.take(i as int).contains(m[i as int]));
        }
        if !present {
            let ghost prev_out = out@;
            out.push(v[i].clone());
            proof {
                assert(seq_views(out@) =~= seq_views(prev_out).push(m[i as int])) by {
                    assert(seq_views(out@).len() == prev_out.len() + 1);
                    assert(forall|q: int| 0 <= q < prev_out.len() ==> out@[q] == prev_out[q]);
                }
            }
        }
        i = i + 1;
    }
    proof {
        assert(m.take(i as int) =~= m);
    }
    out
}

/// Add one name to the registry unless it is already registered.
pub open spec fn intern_one(regs: Seq<Seq<char>>, n: Seq<char>) -> Seq<Seq<char>> {
    if regs.contains(n) {
        regs
    } else {
        regs.push(n)
    }
}

/// Register every name in order.
pub open spec fn intern_all(regs: Seq<Seq<char>>, names: Seq<Seq<char>>) -> Seq<Seq<char>>
    decreases names.len(),
{
    if names.len() == 0 {
        regs
    } else {
        intern_one(intern_all(regs, names.drop_last()), names.last())
    }
}

/// Interning keeps the registry distinct, keeps every registered name, adds
/// every given name, and adds nothing else.
pub proof fn lemma_intern_all_ensures(regs: Seq<Seq<char>>, names: Seq<Seq<char>>)
    ensures
        distinct_strs(regs) ==> distinct_strs(intern_all(regs, names)),
        forall|x: Seq<char>| regs.contains(x) ==> #[trigger] intern_all(regs, names).contains(x),
        forall|j: int|
            0 <= j < names.len() ==> intern_all(regs, names).contains(#[trigger] names[j]),
        forall|x: Seq<char>|
            #[trigger] intern_all(regs, names).contains(x) ==> regs.contains(x) || names.contains(
                x,
            ),
    decreases names.len(),
{
    if names.len() > 0 {
        lemma_intern_all_ensures(regs, names.drop_last());
        let head = intern_all(regs, names.drop_last());
        let out = intern_all(regs, names);
        // A name pushed by intern_one is fresh, so distinctness is kept.
        if distinct_strs(regs) && !head.contains(names.last()) {
            assert forall|i: int, j: int| 0 <= i < j < out.len() implies out[i] != out[j] by {
                if j == out.len() - 1 {
                    assert(head.contains(out[i]));
                }
            }
        }
        assert forall|x: Seq<char>| head.contains(x) implies #[trigger] out.contains(x) by {
            if head.contains(x) {
                let w = choose|w: int| 0 <= w < head.len() && head[w] == x;
                assert(out[w] == x);
            }
        }
        assert(out.contains(names.last())) by {
            if head.contains(names.last()) {
                let w = choose|w: int| 0 <= w < head.len() && head[w] == names.last();
                assert(out[w] == names.last());
            } else {
                assert(out[out.len() - 1] == names.last());
            }
        }
        assert forall|j: int| 0 <= j < names.len() implies out.contains(#[trigger] names[j]) by {
            if j < names.len() - 1 {
                assert(names.drop_last()[j] == names[j]);
                assert(head.contains(names[j]));
            }
        }
        assert forall|x: Seq<char>| #[trigger] out.contains(x) implies regs.contains(x)
            || names.contains(x) by {
            let w = choose|w: int| 0 <= w < out.len() && out[w] == x;
            if w < head.len() {
                assert(head.contains(x));
                if !regs.contains(x) {
                    assert(names.drop_last().contains(x));
                    let v = choose|v: int|
                        0 <= v < names.drop_last().len() && names.drop_last()[v] == x;
                    assert(names[v] == x);
                }
            } else {
                assert(out[w] == names.last());
                assert(names[names.len() - 1] == x);
            }
        }
    }
}

/// Register every name, keeping the registry free of repetitions.
pub fn intern_names(regs: &mut Vec<String>, names: &Vec<String>)
    ensures
        seq_views(final(regs)@) == intern_all(seq_views(old(regs)@), seq_views(names@)),
{
    let ghost base = seq_views(regs@);
    let ghost m = seq_views(names@);
    let mut i: usize = 0;
    while i < names.len()
        invariant
            i <= names@.len(),
            base == seq_views(old(regs)@),
            m == seq_views(names@),
            seq_views(regs@) == intern_all(base, m.take(i as int)),
        decreases names@.len() - i,
    {
        proof {
            assert(m.take(i as int + 1).drop_last() =~= m.take(i as int));
            assert(m.take(i as int + 1).last() == m[i as int]);
        }
        let present = strings_contain(regs, &names[i]);
        proof {
            assert(names[i as int]@ == m[i as int]);
            assert(present == seq_views(regs@).contains(m[i as int])) by {
                if crate::search::strs_contain(seq_views(regs@), m[i as int]) {
                    assert(seq_views(regs@).contains(m[i as int]));
                }
                if seq_views(regs@).contains(m[i as int]) {
                    let w = choose|w: int|
                        0 <= w < seq_views(regs@).len() && seq_views(regs@)[w] == m[i as int];
                    assert(crate::search::strs_contain(seq_views(regs@), m[i as int]));
                }
            }
        }
        if !present {
            let ghost prev = regs@;
            regs.push(names[i].clone());
            proof {
                assert(seq_views(regs@) =~= seq_views(prev).push(m[i as int])) by {
                    assert(seq_views(regs@).len() == prev.len() + 1);
                    assert(forall|q: int| 0 <= q < prev.len() ==> regs@[q] == prev[q]);
                }
            }
        }
        i = i + 1;
    }
    proof {
        assert(m.take(i as int) =~= m);
    }
}

} // verus!
