//! Ordering of keys as character sequences.
use vstd::prelude::*;

verus! {

/// Lexicographic order on character sequences, by code point.
pub open spec fn str_lt(a: Seq<char>, b: Seq<char>) -> bool
    decreases a.len(),
{
    if a.len() == 0 {
        b.len() > 0
    } else if b.len() == 0 {
        false
    } else if a[0] != b[0] {
        a[0] < b[0]
    } else {
        str_lt(a.drop_first(), b.drop_first())
    }
}

/// Each key is strictly below the next one.
pub open spec fn keys_ascending(keys: Seq<Seq<char>>) -> bool {
    forall|i: int| 0 <= i < keys.len() - 1 ==> #[trigger] str_lt(keys[i], keys[i + 1])
}

/// Of two different sequences, one is below the other.
pub proof fn lemma_str_lt_total(a: Seq<char>, b: Seq<char>)
    requires
        a != b,
    ensures
        str_lt(a, b) || str_lt(b, a),
    decreases a.len(),
{
    if a.len() == 0 {
        if b.len() == 0 {
            assert(a =~= b);
        }
    } else if b.len() == 0 {
    } else if a[0] != b[0] {
    } else {
        if a.drop_first() == b.drop_first() {
            assert(a =~= seq![a[0]] + a.drop_first());
            assert(b =~= seq![b[0]] + b.drop_first());
        }
        lemma_str_lt_total(a.drop_first(), b.drop_first());
    }
}

/// Whether `a` is lexicographically below `b`.
pub fn less_than(a: &str, b: &str) -> (r: bool)
    ensures
        r == str_lt(a@, b@),
{
    let la = a.unicode_len();
    let lb = b.unicode_len();
    proof {
        assert(a@.subrange(0, la as int) =~= a@);
        assert(b@.subrange(0, lb as int) =~= b@);
    }
    let mut j: usize = 0;
    while j < la && j < lb
        invariant
            la == a@.len(),
            lb == b@.len(),
            j <= la,
            j <= lb,
            a@.subrange(0, j as int) == b@.subrange(0, j as int),
            str_lt(a@, b@) == str_lt(a@.subrange(j as int, la as int), b@.subrange(j as int, lb as int)),
        decreases la - j,
    {
        let ca = a.get_char(j);
        let cb = b.get_char(j);
        proof {
            let sa = a@.subrange(j as int, la as int);
            let sb = b@.subrange(j as int, lb as int);
            assert(sa[0] == ca && sb[0] == cb);
            assert(sa.drop_first() =~= a@.subrange(j + 1, la as int));
            assert(sb.drop_first() =~= b@.subrange(j + 1, lb as int));
        }
        if ca != cb {
            return ca < cb;
        }
        proof {
            assert(a@.subrange(0, j + 1) =~= a@.subrange(0, j as int).push(ca));
            assert(b@.subrange(0, j + 1) =~= b@.subrange(0, j as int).push(cb));
        }
        j = j + 1;
    }
    j < lb
}

} // verus!
