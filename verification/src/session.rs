//! Who is connecting: the user id comes from the `userId` cookie, or else
//! from the `session` cookie, of the request's `Cookie` header.
use vstd::prelude::*;

verus! {

/// `char::is_whitespace`: the Unicode `White_Space` property.
pub open spec fn is_ws(c: char) -> bool {
    let u: u32 = c as u32;
    ||| 0x09 <= u <= 0x0D
    ||| u == 0x20
    ||| u == 0x85
    ||| u == 0xA0
    ||| u == 0x1680
    ||| 0x2000 <= u <= 0x200A
    ||| u == 0x2028
    ||| u == 0x2029
    ||| u == 0x202F
    ||| u == 0x205F
    ||| u == 0x3000
}

pub open spec fn trim_start(s: Seq<char>) -> Seq<char>
    decreases s.len(),
{
    if s.len() > 0 && is_ws(s[0]) {
        trim_start(s.drop_first())
    } else {
        s
    }
}

pub open spec fn trim_end(s: Seq<char>) -> Seq<char>
    decreases s.len(),
{
    if s.len() > 0 && is_ws(s.last()) {
        trim_end(s.drop_last())
    } else {
        s
    }
}

/// `str::trim`: the text without leading and trailing whitespace.
pub open spec fn trim(s: Seq<char>) -> Seq<char> {
    trim_end(trim_start(s))
}

/// The parts of a text between `;` separators, as `str::split(';')` gives them.
pub open spec fn split_semi(s: Seq<char>) -> Seq<Seq<char>>
    decreases s.len(),
{
    if s.len() == 0 {
        seq![Seq::empty()]
    } else {
        let p = split_semi(s.drop_last());
        if s.last() == ';' {
            p.push(Seq::empty())
        } else {
            p.update(p.len() - 1, p.last().push(s.last()))
        }
    }
}

/// The value of cookie `name` in one part of a cookie header: the trimmed
/// part must start with the name directly followed by `=`; the value is the
/// trimmed rest.
pub open spec fn cookie_value(part: Seq<char>, name: Seq<char>) -> Option<Seq<char>> {
    let p = trim(part);
    if p.len() > name.len() && p.subrange(0, name.len() as int) == name && p[name.len() as int] == '=' {
        Some(trim(p.subrange(name.len() + 1 as int, p.len() as int)))
    } else {
        None
    }
}

/// The value in the first part that holds cookie `name`.
pub open spec fn first_cookie(parts: Seq<Seq<char>>, name: Seq<char>) -> Option<Seq<char>>
    decreases parts.len(),
{
    if parts.len() == 0 {
        None
    } else {
        match cookie_value(parts[0], name) {
            Some(v) => Some(v),
            None => first_cookie(parts.drop_first(), name),
        }
    }
}

/// The value of cookie `name` in a cookie header.
pub open spec fn cookie_in(header: Seq<char>, name: Seq<char>) -> Option<Seq<char>> {
    first_cookie(split_semi(header), name)
}

/// The user id a cookie header names: a non-empty `userId` cookie, else a
/// non-empty `session` cookie.
pub open spec fn user_id_in(header: Option<Seq<char>>) -> Option<Seq<char>> {
    match header {
        None => None,
        Some(h) => match cookie_in(h, "userId"@) {
            Some(v) if v.len() > 0 => Some(v),
            _ => match cookie_in(h, "session"@) {
                Some(v) if v.len() > 0 => Some(v),
                _ => None,
            },
        },
    }
}

proof fn lemma_split_nonempty(s: Seq<char>)
    ensures
        split_semi(s).len() >= 1,
    decreases s.len(),
{
    if s.len() > 0 {
        lemma_split_nonempty(s.drop_last());
    }
}

proof fn lemma_first_cookie_push(parts: Seq<Seq<char>>, x: Seq<char>, name: Seq<char>)
    ensures
        first_cookie(parts.push(x), name) == match first_cookie(parts, name) {
            Some(v) => Some(v),
            None => cookie_value(x, name),
        },
    decreases parts.len(),
{
    assert(parts.push(x)[0] == if parts.len() == 0 { x } else { parts[0] });
    if parts.len() == 0 {
        assert(parts.push(x).drop_first() =~= Seq::<Seq<char>>::empty());
        assert(first_cookie(Seq::<Seq<char>>::empty(), name) is None);
        assert(first_cookie(parts.push(x), name) == match cookie_value(x, name) {
            Some(v) => Some(v),
            None => first_cookie(Seq::<Seq<char>>::empty(), name),
        });
    } else {
        lemma_first_cookie_push(parts.drop_first(), x, name);
        assert(parts.push(x).drop_first() =~= parts.drop_first().push(x));
        assert(first_cookie(parts.push(x), name) == match cookie_value(parts[0], name) {
            Some(v) => Some(v),
            None => first_cookie(parts.drop_first().push(x), name),
        });
    }
}

fn is_whitespace(c: char) -> (r: bool)
    ensures
        r == is_ws(c),
{
    let u: u32 = c as u32;
    (0x09 <= u && u <= 0x0D) || u == 0x20 || u == 0x85 || u == 0xA0 || u == 0x1680 || (0x2000 <= u && u
        <= 0x200A) || u == 0x2028 || u == 0x2029 || u == 0x202F || u == 0x205F || u == 0x3000
}

fn chars_of(s: &str) -> (r: Vec<char>)
    ensures
        r@ == s@,
{
    let mut out: Vec<char> = Vec::new();
    for c in it: s.chars()
        invariant
            out@ == it.seq().take(it.index() as int),
    {
        out.push(c);
    }
    out
}

proof fn lemma_trim_start_skip(s: Seq<char>, k: int)
    requires
        0 <= k < s.len(),
        is_ws(s[k]),
    ensures
        trim_start(s.subrange(k, s.len() as int)) == trim_start(s.subrange(k + 1, s.len() as int)),
{
    assert(s.subrange(k, s.len() as int).drop_first() =~= s.subrange(k + 1, s.len() as int));
}

proof fn lemma_trim_end_skip(s: Seq<char>, k: int)
    requires
        0 < k <= s.len(),
        is_ws(s[k - 1]),
    ensures
        trim_end(s.subrange(0, k)) == trim_end(s.subrange(0, k - 1)),
{
    assert(s.subrange(0, k).drop_last() =~= s.subrange(0, k - 1));
}

/// The bounds of `h[lo..hi]` without leading and trailing whitespace.
fn trim_bounds(h: &Vec<char>, lo: usize, hi: usize) -> (r: (usize, usize))
    requires
        lo <= hi <= h.len(),
    ensures
        lo <= r.0 <= r.1 <= hi,
        h@.subrange(r.0 as int, r.1 as int) == trim(h@.subrange(lo as int, hi as int)),
{
    let ghost s = h@.subrange(lo as int, hi as int);
    let mut a = lo;
    while a < hi && is_whitespace(h[a])
        invariant
            lo <= a <= hi <= h.len(),
            s == h@.subrange(lo as int, hi as int),
            trim_start(s) == trim_start(h@.subrange(a as int, hi as int)),
        decreases hi - a,
    {
        proof {
            let t = h@.subrange(lo as int, hi as int);
            lemma_trim_start_skip(h@.subrange(0, hi as int), a as int);
            assert(h@.subrange(0, hi as int).subrange(a as int, hi as int) =~= h@.subrange(a as int, hi as int));
            assert(h@.subrange(0, hi as int).subrange(a + 1, hi as int) =~= h@.subrange(a + 1, hi as int));
        }
        a = a + 1;
    }
    assert(trim_start(h@.subrange(a as int, hi as int)) == h@.subrange(a as int, hi as int));
    let ghost u = h@.subrange(a as int, hi as int);
    let mut b = hi;
    while b > a && is_whitespace(h[b - 1])
        invariant
            lo <= a <= b <= hi <= h.len(),
            u == h@.subrange(a as int, hi as int),
            trim_end(u) == trim_end(h@.subrange(a as int, b as int)),
        decreases b - a,
    {
        proof {
            let w = h@.subrange(a as int, b as int);
            lemma_trim_end_skip(w, (b - a) as int);
            assert(w.subrange(0, (b - a) as int) =~= w);
            assert(w.subrange(0, (b - a - 1) as int) =~= h@.subrange(a as int, b - 1));
        }
        b = b - 1;
    }
    assert(trim_end(h@.subrange(a as int, b as int)) == h@.subrange(a as int, b as int));
    (a, b)
}

/// The value of cookie `name` in the part `h[lo..hi]`, as bounds into `h`.
fn part_value(h: &Vec<char>, lo: usize, hi: usize, name: &Vec<char>) -> (r: Option<(usize, usize)>)
    requires
        lo <= hi <= h.len(),
    ensures
        match r {
            Some((a, b)) => a <= b <= h.len() && cookie_value(h@.subrange(lo as int, hi as int), name@)
                == Some(h@.subrange(a as int, b as int)),
            None => cookie_value(h@.subrange(lo as int, hi as int), name@) is None,
        },
{
    let (a, b) = trim_bounds(h, lo, hi);
    let ghost p = h@.subrange(a as int, b as int);
    let n: usize = name.len();
    if b - a <= n {
        return None;
    }
    let mut j: usize = 0;
    while j < n
        invariant
            j <= n,
            n == name.len(),
            lo <= a,
            a + n < b <= hi <= h.len(),
            p == h@.subrange(a as int, b as int),
            p == trim(h@.subrange(lo as int, hi as int)),
            forall|k: int| 0 <= k < j ==> p[k] == name@[k],
        decreases n - j,
    {
        if h[a + j] != name[j] {
            assert(p.subrange(0, n as int)[j as int] != name@[j as int]);
            assert(p.subrange(0, n as int) != name@);
            assert(trim(h@.subrange(lo as int, hi as int)) == p);
            return None;
        }
        j = j + 1;
    }
    assert(p.subrange(0, n as int) =~= name@);
    if h[a + n] != '=' {
        return None;
    }
    let (va, vb) = trim_bounds(h, a + n + 1, b);
    assert(p.subrange(n + 1, p.len() as int) =~= h@.subrange(a + n + 1, b as int));
    Some((va, vb))
}

/// Finds the value of cookie `name` in a `Cookie` header.
pub fn find_cookie<'a>(header: &'a str, name: &str) -> (r: Option<&'a str>)
    ensures
        match r {
            Some(v) => cookie_in(header@, name@) == Some(v@),
            None => cookie_in(header@, name@) is None,
        },
{
    let h = chars_of(header);
    let nm = chars_of(name);
    let ghost hs = h@;
    let mut st: usize = 0;
    let mut i: usize = 0;
    let mut found: Option<(usize, usize)> = None;
    let ghost mut done: Seq<Seq<char>> = Seq::empty();
    assert(hs.take(0) =~= Seq::<char>::empty());
    assert(split_semi(hs.take(0)) =~= done.push(hs.subrange(0, 0)));
    while i < h.len()
        invariant
            st <= i <= h.len(),
            hs == h@,
            hs == header@,
            nm@ == name@,
            split_semi(hs.take(i as int)) == done.push(hs.subrange(st as int, i as int)),
            match found {
                Some((a, b)) => a <= b <= hs.len() && first_cookie(done, name@) == Some(hs.subrange(a as int, b as int)),
                None => first_cookie(done, name@) is None,
            },
        decreases h.len() - i,
    {
        assert(hs.take(i as int + 1).drop_last() =~= hs.take(i as int));
        assert(hs.take(i as int + 1).last() == hs[i as int]);
        if h[i] == ';' {
            if found.is_none() {
                found = part_value(&h, st, i, &nm);
            }
            proof {
                lemma_first_cookie_push(done, hs.subrange(st as int, i as int), name@);
                done = done.push(hs.subrange(st as int, i as int));
            }
            assert(hs.subrange(i + 1, i + 1) =~= Seq::<char>::empty());
            st = i + 1;
        } else {
            assert(hs.subrange(st as int, i as int).push(hs[i as int]) =~= hs.subrange(st as int, i + 1));
        }
        i = i + 1;
    }
    assert(hs.take(i as int) =~= hs);
    proof {
        lemma_first_cookie_push(done, hs.subrange(st as int, i as int), name@);
    }
    if found.is_none() {
        found = part_value(&h, st, i, &nm);
    }
    match found {
        Some((a, b)) => Some(header.substring_char(a, b)),
        None => None,
    }
}

/// The user id of a request, from its `Cookie` header if it has one: the
/// `userId` cookie if it is non-empty, else the `session` cookie if it is
/// non-empty.
pub fn extract_user_id(cookie_header: Option<&str>) -> (r: Option<String>)
    ensures
        match r {
            Some(v) => user_id_in(
                match cookie_header {
                    Some(h) => Some(h@),
                    None => None,
                },
            ) == Some(v@),
            None => user_id_in(
                match cookie_header {
                    Some(h) => Some(h@),
                    None => None,
                },
            ) is None,
        },
{
    match cookie_header {
        None => None,
        Some(h) => {
            if let Some(v) = find_cookie(h, "userId") {
                if !v.is_empty() {
                    return Some(v.to_owned());
                }
            }
            if let Some(v) = find_cookie(h, "session") {
                if !v.is_empty() {
                    return Some(v.to_owned());
                }
            }
            None
        },
    }
}

} // verus!
