//! Association sequences: the mathematical model shared by every keyed store
//! in the library (balances, rate-limit records, purgatory records).
//!
//! A store is modelled as a sequence of `(key, value)` pairs with pairwise
//! distinct keys; `get_val` reads the value at a key (or a default), and
//! `put_val` replaces the value at a key or appends a fresh pair.

use vstd::pervasive::VecAdditionalExecFns;
use vstd::prelude::*;

verus! {

/// Whether the association sequence holds an entry for key `a`.
pub open spec fn has_key<V>(s: Seq<(u64, V)>, a: u64) -> bool
    decreases s.len(),
{
    if s.len() == 0 {
        false
    } else {
        s[0].0 == a || has_key(s.drop_first(), a)
    }
}

/// The value stored for key `a`, or `dflt` if there is no entry.
pub open spec fn get_val<V>(s: Seq<(u64, V)>, a: u64, dflt: V) -> V
    decreases s.len(),
{
    if s.len() == 0 {
        dflt
    } else if s[0].0 == a {
        s[0].1
    } else {
        get_val(s.drop_first(), a, dflt)
    }
}

/// The sequence with the entry for key `a` replaced by `v`, or with `(a, v)`
/// appended if there was no entry.
pub open spec fn put_val<V>(s: Seq<(u64, V)>, a: u64, v: V) -> Seq<(u64, V)>
    decreases s.len(),
{
    if s.len() == 0 {
        seq![(a, v)]
    } else if s[0].0 == a {
        s.update(0, (a, v))
    } else {
        seq![s[0]] + put_val(s.drop_first(), a, v)
    }
}

/// All keys in the sequence are pairwise distinct.
pub open spec fn unique_keys<V>(s: Seq<(u64, V)>) -> bool
    decreases s.len(),
{
    s.len() == 0 || (!has_key(s.drop_first(), s[0].0) && unique_keys(s.drop_first()))
}

/// A key is present exactly when some index holds it.
pub proof fn lemma_has_key_index<V>(s: Seq<(u64, V)>, a: u64)
    ensures
        has_key(s, a) <==> exists|i: int| 0 <= i < s.len() && s[i].0 == a,
    decreases s.len(),
{
    if s.len() > 0 {
        lemma_has_key_index(s.drop_first(), a);
        if has_key(s.drop_first(), a) {
            let j = choose|j: int| 0 <= j < s.drop_first().len() && s.drop_first()[j].0 == a;
            assert(s[j + 1].0 == a);
        }
        if exists|i: int| 0 <= i < s.len() && s[i].0 == a {
            let i = choose|i: int| 0 <= i < s.len() && s[i].0 == a;
            if i > 0 {
                assert(s.drop_first()[i - 1].0 == a);
            }
        }
    }
}

/// If `i` is the first index holding key `a`, `get_val` reads the value
/// stored there.
pub proof fn lemma_get_at_first_index<V>(s: Seq<(u64, V)>, a: u64, dflt: V, i: int)
    requires
        0 <= i < s.len(),
        s[i].0 == a,
        forall|j: int| 0 <= j < i ==> s[j].0 != a,
    ensures
        has_key(s, a),
        get_val(s, a, dflt) == s[i].1,
    decreases i,
{
    if i > 0 {
        assert(forall|j: int| 0 <= j < i - 1 ==> s.drop_first()[j].0 != a);
        lemma_get_at_first_index(s.drop_first(), a, dflt, i - 1);
    }
}

/// If no entry holds key `a`, `get_val` yields the default.
pub proof fn lemma_get_absent<V>(s: Seq<(u64, V)>, a: u64, dflt: V)
    requires
        !has_key(s, a),
    ensures
        get_val(s, a, dflt) == dflt,
    decreases s.len(),
{
    if s.len() > 0 {
        lemma_get_absent(s.drop_first(), a, dflt);
    }
}

/// If `i` is the first index holding key `a`, `put_val` is an update at `i`.
pub proof fn lemma_put_at_first_index<V>(s: Seq<(u64, V)>, a: u64, v: V, i: int)
    requires
        0 <= i < s.len(),
        s[i].0 == a,
        forall|j: int| 0 <= j < i ==> s[j].0 != a,
    ensures
        put_val(s, a, v) == s.update(i, (a, v)),
    decreases i,
{
    if i == 0 {
    } else {
        assert(forall|j: int| 0 <= j < i - 1 ==> s.drop_first()[j].0 != a);
        lemma_put_at_first_index(s.drop_first(), a, v, i - 1);
        assert(seq![s[0]] + s.drop_first().update(i - 1, (a, v)) =~= s.update(i, (a, v)));
    }
}

/// If no entry holds key `a`, `put_val` appends a fresh pair.
pub proof fn lemma_put_absent<V>(s: Seq<(u64, V)>, a: u64, v: V)
    requires
        !has_key(s, a),
    ensures
        put_val(s, a, v) == s.push((a, v)),
    decreases s.len(),
{
    if s.len() == 0 {
        assert(put_val(s, a, v) =~= s.push((a, v)));
    } else {
        lemma_put_absent(s.drop_first(), a, v);
        assert(seq![s[0]] + s.drop_first().push((a, v)) =~= s.push((a, v)));
    }
}

/// How `put_val` changes membership at key `b` and what it reads back.
pub proof fn lemma_put_get<V>(s: Seq<(u64, V)>, a: u64, v: V, b: u64, dflt: V)
    ensures
        has_key(put_val(s, a, v), b) == (b == a || has_key(s, b)),
        get_val(put_val(s, a, v), b, dflt) == if b == a {
            v
        } else {
            get_val(s, b, dflt)
        },
    decreases s.len(),
{
    let p = put_val(s, a, v);
    if s.len() == 0 {
        assert(p.drop_first() =~= Seq::<(u64, V)>::empty());
        assert(!has_key(p.drop_first(), b));
        assert(get_val(p.drop_first(), b, dflt) == dflt);
    } else if s[0].0 == a {
        assert(p == s.update(0, (a, v)));
        assert(p.drop_first() =~= s.drop_first());
        assert(p[0] == (a, v));
    } else {
        lemma_put_get(s.drop_first(), a, v, b, dflt);
        assert(p[0] == s[0]);
        assert(p.drop_first() =~= put_val(s.drop_first(), a, v));
    }
}

/// `put_val` keeps keys pairwise distinct.
pub proof fn lemma_put_unique<V>(s: Seq<(u64, V)>, a: u64, v: V)
    requires
        unique_keys(s),
    ensures
        unique_keys(put_val(s, a, v)),
        put_val(s, a, v).len() == s.len() + if has_key(s, a) {
            0int
        } else {
            1int
        },
    decreases s.len(),
{
    let p = put_val(s, a, v);
    if s.len() == 0 {
        assert(p.drop_first() =~= Seq::<(u64, V)>::empty());
        assert(!has_key(p.drop_first(), p[0].0));
        assert(unique_keys(p.drop_first()));
    } else if s[0].0 == a {
        assert(p == s.update(0, (a, v)));
        assert(p.drop_first() =~= s.drop_first());
        assert(p[0] == (a, v));
        assert(!has_key(p.drop_first(), p[0].0));
        assert(unique_keys(p.drop_first()));
    } else {
        lemma_put_unique(s.drop_first(), a, v);
        lemma_put_get(s.drop_first(), a, v, s[0].0, v);
        assert(p[0] == s[0]);
        assert(p.drop_first() =~= put_val(s.drop_first(), a, v));
        assert(!has_key(p.drop_first(), p[0].0));
        assert(unique_keys(p.drop_first()));
    }
}

/// Index of the first entry for key `a` in an association vector, if any.
pub fn find_entry<V>(v: &Vec<(u64, V)>, a: u64) -> (r: Option<usize>)
    ensures
        match r {
            Some(i) => {
                &&& i < v@.len()
                &&& v@[i as int].0 == a
                &&& forall|j: int| 0 <= j < i ==> v@[j].0 != a
            },
            None => !has_key(v@, a),
        },
{
    let n = v.len();
    let mut i: usize = 0;
    while i < n
        invariant
            i <= n,
            n == v@.len(),
            forall|j: int| 0 <= j < i ==> v@[j].0 != a,
        decreases n - i,
    {
        if v[i].0 == a {
            return Some(i);
        }
        i = i + 1;
    }
    proof {
        lemma_has_key_index(v@, a);
    }
    None
}

/// The value stored for key `a` in an association vector, or `dflt`.
pub fn get_entry<V: Copy>(v: &Vec<(u64, V)>, a: u64, dflt: V) -> (r: V)
    ensures
        r == get_val(v@, a, dflt),
{
    match find_entry(v, a) {
        Some(i) => {
            proof {
                lemma_get_at_first_index(v@, a, dflt, i as int);
            }
            v[i].1
        },
        None => {
            proof {
                lemma_get_absent(v@, a, dflt);
            }
            dflt
        },
    }
}

/// A copy of an association vector, used to stage updates that must not
/// survive a failed call.
pub fn dup_entries<V: Copy>(v: &Vec<(u64, V)>) -> (r: Vec<(u64, V)>)
    ensures
        r@ == v@,
{
    let n = v.len();
    let mut out: Vec<(u64, V)> = Vec::new();
    let mut i: usize = 0;
    while i < n
        invariant
            i <= n,
            n == v@.len(),
            out@ == v@.subrange(0, i as int),
        decreases n - i,
    {
        out.push(v[i]);
        proof {
            assert(out@ =~= v@.subrange(0, i + 1));
        }
        i = i + 1;
    }
    proof {
        assert(out@ =~= v@);
    }
    out
}

/// Replaces the value stored for key `a` in an association vector, appending
/// a fresh entry when absent.
pub fn put_entry<V: Copy>(v: &mut Vec<(u64, V)>, a: u64, val: V)
    ensures
        final(v)@ == put_val(old(v)@, a, val),
{
    let ghost s0 = v@;
    match find_entry(v, a) {
        Some(i) => {
            proof {
                lemma_put_at_first_index(s0, a, val, i as int);
            }
            v.set(i, (a, val));
        },
        None => {
            proof {
                lemma_put_absent(s0, a, val);
            }
            v.push((a, val));
        },
    }
}

} // verus!
