//! Association lists keyed by text: the library's maps from ids to records.
//! Entries keep their insertion order; a key is looked up at its first
//! occurrence, and a well-formed list holds each key once.
use vstd::prelude::*;

verus! {

/// The abstract contents of an association list: its keys and values as views.
pub open spec fn entries_view<V: View>(s: Seq<(String, V)>) -> Seq<(Seq<char>, V::V)> {
    s.map_values(|e: (String, V)| (e.0@, e.1@))
}

/// No key occurs twice.
pub open spec fn keys_distinct<X>(s: Seq<(Seq<char>, X)>) -> bool {
    forall|i: int, j: int| 0 <= i < j < s.len() ==> s[i].0 != s[j].0
}

/// Some entry has key `k`.
pub open spec fn has_key<X>(s: Seq<(Seq<char>, X)>, k: Seq<char>) -> bool {
    exists|i: int| 0 <= i < s.len() && s[i].0 == k
}

/// The index of the first entry with key `k`, or -1 when there is none.
pub open spec fn first_key_index<X>(s: Seq<(Seq<char>, X)>, k: Seq<char>) -> int
    decreases s.len(),
{
    if s.len() == 0 {
        -1
    } else {
        let j: int = first_key_index(s.drop_last(), k);
        if j >= 0 {
            j
        } else if s.last().0 == k {
            s.len() - 1
        } else {
            -1
        }
    }
}

/// Insertion with replacement: the first entry with key `k` gets the new
/// entry, or the entry is appended when `k` is absent.
pub open spec fn put<X>(s: Seq<(Seq<char>, X)>, k: Seq<char>, x: X) -> Seq<(Seq<char>, X)> {
    let j: int = first_key_index(s, k);
    if j >= 0 {
        s.update(j, (k, x))
    } else {
        s.push((k, x))
    }
}

pub proof fn lemma_first_key_index_bounds<X>(s: Seq<(Seq<char>, X)>, k: Seq<char>)
    ensures
        -1 <= first_key_index(s, k) < s.len(),
        first_key_index(s, k) >= 0 ==> s[first_key_index(s, k)].0 == k,
        first_key_index(s, k) >= 0 ==> forall|i: int|
            0 <= i < first_key_index(s, k) ==> s[i].0 != k,
        first_key_index(s, k) == -1 <==> !has_key(s, k),
    decreases s.len(),
{
    if s.len() > 0 {
        lemma_first_key_index_bounds(s.drop_last(), k);
        let j: int = first_key_index(s.drop_last(), k);
        assert forall|i: int| 0 <= i < s.len() - 1 implies s[i] == s.drop_last()[i] by {}
        if j == -1 && s.last().0 != k {
            assert forall|i: int| 0 <= i < s.len() implies s[i].0 != k by {
                if i < s.len() - 1 {
                    assert(s.drop_last()[i] == s[i]);
                }
            }
        }
        if has_key(s.drop_last(), k) {
            let i: int = choose|i: int| 0 <= i < s.drop_last().len() && s.drop_last()[i].0 == k;
            assert(s[i] == s.drop_last()[i]);
        }
    }
}

/// What a read gives back of a write: after putting `x` under `k`, the
/// list holds `(k, x)`, every entry under another key is still there, and
/// the list grew by one entry exactly when `k` was absent.
pub proof fn law_put_keeps_others<X>(s: Seq<(Seq<char>, X)>, k: Seq<char>, x: X)
    ensures
        put(s, k, x).contains((k, x)),
        forall|i: int| 0 <= i < s.len() && s[i].0 != k ==> put(s, k, x).contains(#[trigger] s[i]),
        put(s, k, x).len() == if has_key(s, k) { s.len() } else { s.len() + 1 },
{
    lemma_first_key_index_bounds(s, k);
    let p = put(s, k, x);
    let j = first_key_index(s, k);
    if j >= 0 {
        assert(p[j] == (k, x));
        assert forall|i: int| 0 <= i < s.len() && s[i].0 != k implies p.contains(#[trigger] s[i]) by {
            assert(i != j);
            assert(p[i] == s[i]);
        }
    } else {
        assert(p[s.len() as int] == (k, x));
        assert forall|i: int| 0 <= i < s.len() && s[i].0 != k implies p.contains(#[trigger] s[i]) by {
            assert(p[i] == s[i]);
        }
    }
}

/// Extending a list keeps an index already found in its prefix.
pub proof fn lemma_first_key_index_prefix<X>(s: Seq<(Seq<char>, X)>, n: int, k: Seq<char>)
    requires
        0 <= n <= s.len(),
        first_key_index(s.take(n), k) >= 0,
    ensures
        first_key_index(s, k) == first_key_index(s.take(n), k),
    decreases s.len() - n,
{
    if n < s.len() {
        assert(s.take(n + 1).drop_last() =~= s.take(n));
        lemma_first_key_index_prefix(s, n + 1, k);
    } else {
        assert(s.take(n) =~= s);
    }
}

/// Putting into a list with distinct keys keeps them distinct.
pub proof fn lemma_put_distinct<X>(s: Seq<(Seq<char>, X)>, k: Seq<char>, x: X)
    requires
        keys_distinct(s),
    ensures
        keys_distinct(put(s, k, x)),
        has_key(put(s, k, x), k),
{
    lemma_first_key_index_bounds(s, k);
    let r = put(s, k, x);
    let j: int = first_key_index(s, k);
    if j >= 0 {
        assert(r[j].0 == k);
    } else {
        assert(r[s.len() as int].0 == k);
    }
}

/// Finds the first entry whose key is `k`.
pub fn find_key<V: View>(v: &Vec<(String, V)>, k: &String) -> (r: Option<usize>)
    ensures
        match r {
            Some(i) => i as int == first_key_index(entries_view(v@), k@),
            None => first_key_index(entries_view(v@), k@) == -1,
        },
{
    let ghost s = entries_view(v@);
    let mut i: usize = 0;
    while i < v.len()
        invariant
            i <= v.len(),
            s == entries_view(v@),
            first_key_index(s.take(i as int), k@) == -1,
        decreases v.len() - i,
    {
        assert(s.take(i as int + 1).drop_last() =~= s.take(i as int));
        if v[i].0 == *k {
            assert(s.take(i as int + 1).last().0 == k@);
            proof {
                lemma_first_key_index_prefix(s, i as int + 1, k@);
            }
            return Some(i);
        }
        i = i + 1;
    }
    assert(s.take(i as int) =~= s);
    None
}

/// Inserts `x` under `k`, replacing the first entry with that key if any.
pub fn put_entry<V: View>(v: &mut Vec<(String, V)>, k: String, x: V)
    ensures
        entries_view(final(v)@) == put(entries_view(old(v)@), k@, x@),
{
    let ghost k_view = k@;
    let ghost x_view = x@;
    match find_key(v, &k) {
        Some(i) => {
            proof {
                lemma_first_key_index_bounds(entries_view(v@), k_view);
            }
            v.set(i, (k, x));
            assert(entries_view(v@) =~= put(entries_view(old(v)@), k_view, x_view));
        },
        None => {
            v.push((k, x));
            assert(entries_view(v@) =~= put(entries_view(old(v)@), k_view, x_view));
        },
    }
}

} // verus!
