//! Removing every occurrence of a value from a sequence.
use vstd::prelude::*;

verus! {

/// The sequence without the occurrences of `id`.
pub open spec fn without<A>(s: Seq<A>, id: A) -> Seq<A>
    decreases s.len(),
{
    if s.len() == 0 {
        s
    } else {
        let init = without(s.drop_last(), id);
        if s.last() == id {
            init
        } else {
            init.push(s.last())
        }
    }
}

pub proof fn lemma_without_absent<A>(s: Seq<A>, id: A)
    requires
        !s.contains(id),
    ensures
        without(s, id) == s,
    decreases s.len(),
{
    if s.len() > 0 {
        assert(!s.drop_last().contains(id)) by {
            if s.drop_last().contains(id) {
                let k = choose|k: int| 0 <= k < s.drop_last().len() && s.drop_last()[k] == id;
                assert(s[k] == id);
            }
        }
        lemma_without_absent(s.drop_last(), id);
        assert(s.last() != id) by {
            assert(s[s.len() - 1] == s.last());
        }
        assert(s.drop_last().push(s.last()) =~= s);
    }
}

pub proof fn lemma_without_concat<A>(a: Seq<A>, b: Seq<A>, id: A)
    ensures
        without(a + b, id) == without(a, id) + without(b, id),
    decreases b.len(),
{
    if b.len() == 0 {
        assert(a + b =~= a);
        assert(without(a, id) + without(b, id) =~= without(a, id));
    } else {
        assert((a + b).drop_last() =~= a + b.drop_last());
        assert((a + b).last() == b.last());
        lemma_without_concat(a, b.drop_last(), id);
        if b.last() == id {
        } else {
            assert(without(a, id) + without(b, id) =~= (without(a, id)
                + without(b.drop_last(), id)).push(b.last()));
        }
    }
}

pub proof fn lemma_without_at<A>(s: Seq<A>, j: int, id: A)
    requires
        0 <= j < s.len(),
        s[j] == id,
        s.no_duplicates(),
    ensures
        without(s, id) == s.remove(j),
{
    let a = s.take(j);
    let b = s.skip(j + 1);
    assert(s =~= a + seq![id] + b);
    assert(!a.contains(id)) by {
        if a.contains(id) {
            let k = choose|k: int| 0 <= k < a.len() && a[k] == id;
            assert(s[k] == s[j]);
        }
    }
    assert(!b.contains(id)) by {
        if b.contains(id) {
            let k = choose|k: int| 0 <= k < b.len() && b[k] == id;
            assert(s[j + 1 + k] == s[j]);
        }
    }
    lemma_without_absent(a, id);
    lemma_without_absent(b, id);
    lemma_without_concat(a + seq![id], b, id);
    lemma_without_concat(a, seq![id], id);
    assert(seq![id].drop_last() =~= Seq::<A>::empty());
    assert(without(Seq::<A>::empty(), id) == Seq::<A>::empty());
    assert(seq![id].last() == id);
    assert(without(seq![id], id) =~= Seq::<A>::empty());
    assert(s.remove(j) =~= a + b);
}

pub proof fn lemma_without_no_dup<A>(s: Seq<A>, id: A)
    requires
        s.no_duplicates(),
    ensures
        without(s, id).no_duplicates(),
        forall|x: A| #[trigger] without(s, id).contains(x) ==> s.contains(x) && x != id,
    decreases s.len(),
{
    if s.len() > 0 {
        let init = s.drop_last();
        assert(init.no_duplicates()) by {
            assert forall|a: int, b: int| 0 <= a < init.len() && 0 <= b < init.len() && a != b implies init[a] != init[b] by {
                assert(s[a] != s[b]);
            }
        }
        lemma_without_no_dup(init, id);
        let r0 = without(init, id);
        assert forall|x: A| without(s, id).contains(x) implies s.contains(x) && x != id by {
            if r0.contains(x) {
                assert(init.contains(x) && x != id);
                let k = choose|k: int| 0 <= k < init.len() && init[k] == x;
                assert(s[k] == x);
            } else {
                assert(x == s.last());
                assert(s[s.len() - 1] == x);
            }
        }
        if s.last() != id {
            assert(!r0.contains(s.last())) by {
                if r0.contains(s.last()) {
                    let k = choose|k: int| 0 <= k < init.len() && init[k] == s.last();
                    assert(s[k] == s[s.len() - 1]);
                }
            }
            let r = r0.push(s.last());
            assert forall|a: int, b: int| 0 <= a < r.len() && 0 <= b < r.len() && a != b implies r[a] != r[b] by {
                if a < r0.len() && b < r0.len() {
                } else if a < r0.len() {
                    assert(r0.contains(r0[a]));
                } else if b < r0.len() {
                    assert(r0.contains(r0[b]));
                }
            }
        }
    }
}



/// After the removal, the value does not occur.
pub proof fn lemma_without_excludes<A>(s: Seq<A>, id: A)
    ensures
        !without(s, id).contains(id),
    decreases s.len(),
{
    if s.len() > 0 {
        lemma_without_excludes(s.drop_last(), id);
        let init = without(s.drop_last(), id);
        if s.last() != id {
            assert forall|k: int| 0 <= k < init.push(s.last()).len() implies init.push(s.last())[k] != id by {
                if k < init.len() {
                    assert(init.contains(init[k]));
                }
            }
        }
    }
}

} // verus!
