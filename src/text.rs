//! Character-level text operations used by the parser, the code generator and
//! the formatter, each with a specification over `Seq<char>`.
use vstd::prelude::*;
use vstd::std_specs::iter::IteratorSpec;
use vstd::string::*;

verus! {

/// Whitespace as `char::is_whitespace` defines it (the Unicode White_Space set).
pub open spec fn is_ws(c: char) -> bool {
    let u = c as u32;
    (0x09 <= u <= 0x0D) || u == 0x20 || u == 0x85 || u == 0xA0 || u == 0x1680 || (0x2000 <= u
        <= 0x200A) || u == 0x2028 || u == 0x2029 || u == 0x202F || u == 0x205F || u == 0x3000
}

pub open spec fn trim_start(s: Seq<char>) -> Seq<char>
    decreases s.len(),
{
    if s.len() > 0 && is_ws(s[0]) {
        trim_start(s.drop_first())
    } else {
        s
    }
}

pub open spec fn trim_end(s: Seq<char>) -> Seq<char>
    decreases s.len(),
{
    if s.len() > 0 && is_ws(s.last()) {
        trim_end(s.drop_last())
    } else {
        s
    }
}

/// Leading and trailing whitespace removed, as `str::trim` does.
pub open spec fn trim(s: Seq<char>) -> Seq<char> {
    trim_end(trim_start(s))
}

pub open spec fn starts_with(s: Seq<char>, p: Seq<char>) -> bool {
    p.len() <= s.len() && s.subrange(0, p.len() as int) == p
}

pub open spec fn ends_with(s: Seq<char>, p: Seq<char>) -> bool {
    p.len() <= s.len() && s.subrange(s.len() - p.len(), s.len() as int) == p
}

/// `p` stripped from the front of `s` as often as it occurs there.
pub open spec fn trim_start_matches(s: Seq<char>, p: Seq<char>) -> Seq<char>
    decreases s.len(),
{
    if p.len() > 0 && starts_with(s, p) {
        trim_start_matches(s.skip(p.len() as int), p)
    } else {
        s
    }
}

/// `p` stripped from the back of `s` as often as it occurs there.
pub open spec fn trim_end_matches(s: Seq<char>, p: Seq<char>) -> Seq<char>
    decreases s.len(),
{
    if p.len() > 0 && ends_with(s, p) {
        trim_end_matches(s.take(s.len() - p.len()), p)
    } else {
        s
    }
}

/// `c` stripped from both ends of `s`, as `str::trim_matches` does with a char.
pub open spec fn trim_matches(s: Seq<char>, c: char) -> Seq<char> {
    trim_end_matches(trim_start_matches(s, seq![c]), seq![c])
}

pub open spec fn occurs_at(s: Seq<char>, p: Seq<char>, i: int) -> bool {
    0 <= i && i + p.len() <= s.len() && s.subrange(i, i + p.len()) == p
}

/// The first position at or after `i` where `p` occurs in `s`.
pub open spec fn find_from(s: Seq<char>, p: Seq<char>, i: int) -> Option<int>
    decreases s.len() + 1 - i,
{
    if i < 0 || i + p.len() > s.len() {
        None
    } else if occurs_at(s, p, i) {
        Some(i)
    } else {
        find_from(s, p, i + 1)
    }
}

/// The last position before `k` where `p` occurs in `s`.
pub open spec fn rfind_before(s: Seq<char>, p: Seq<char>, k: int) -> Option<int>
    decreases k,
{
    if k <= 0 {
        None
    } else if occurs_at(s, p, k - 1) {
        Some(k - 1)
    } else {
        rfind_before(s, p, k - 1)
    }
}

pub proof fn lemma_find_from_occurs(s: Seq<char>, p: Seq<char>, i: int)
    ensures
        find_from(s, p, i) matches Some(k) ==> i <= k && occurs_at(s, p, k),
    decreases s.len() + 1 - i,
{
    if !(i < 0 || i + p.len() > s.len()) && !occurs_at(s, p, i) {
        lemma_find_from_occurs(s, p, i + 1);
    }
}

pub proof fn lemma_rfind_before_occurs(s: Seq<char>, p: Seq<char>, k: int)
    ensures
        rfind_before(s, p, k) matches Some(j) ==> j < k && occurs_at(s, p, j),
    decreases k,
{
    if k > 0 && !occurs_at(s, p, k - 1) {
        lemma_rfind_before_occurs(s, p, k - 1);
    }
}

pub open spec fn contains(s: Seq<char>, p: Seq<char>) -> bool {
    find_from(s, p, 0) is Some
}

/// The parts before and after the first occurrence of `p`, as `str::split_once`.
pub open spec fn split_once(s: Seq<char>, p: Seq<char>) -> Option<(Seq<char>, Seq<char>)> {
    match find_from(s, p, 0) {
        Some(k) => Some((s.take(k), s.skip(k + p.len()))),
        None => None,
    }
}

/// The parts before and after the last occurrence of `p`, as `str::rsplit_once`.
pub open spec fn rsplit_once(s: Seq<char>, p: Seq<char>) -> Option<(Seq<char>, Seq<char>)> {
    match rfind_before(s, p, s.len() as int) {
        Some(k) => Some((s.take(k), s.skip(k + p.len()))),
        None => None,
    }
}

pub open spec fn split_acc(
    s: Seq<char>,
    c: char,
    i: int,
    cur: Seq<char>,
    acc: Seq<Seq<char>>,
) -> Seq<Seq<char>>
    decreases s.len() - i,
{
    if i >= s.len() {
        acc.push(cur)
    } else if s[i] == c {
        split_acc(s, c, i + 1, Seq::empty(), acc.push(cur))
    } else {
        split_acc(s, c, i + 1, cur.push(s[i]), acc)
    }
}

/// The pieces of `s` between occurrences of `c`, as `str::split` with a char.
pub open spec fn split(s: Seq<char>, c: char) -> Seq<Seq<char>> {
    split_acc(s, c, 0, Seq::empty(), Seq::empty())
}

pub open spec fn strip_prefix(s: Seq<char>, p: Seq<char>) -> Option<Seq<char>> {
    if starts_with(s, p) {
        Some(s.skip(p.len() as int))
    } else {
        None
    }
}

proof fn lemma_trim_start_len(s: Seq<char>)
    ensures
        trim_start(s).len() <= s.len(),
    decreases s.len(),
{
    if s.len() > 0 {
        lemma_trim_start_len(s.drop_first());
    }
}

proof fn lemma_trim_end_len(s: Seq<char>)
    ensures
        trim_end(s).len() <= s.len(),
    decreases s.len(),
{
    if s.len() > 0 {
        lemma_trim_end_len(s.drop_last());
    }
}

pub proof fn lemma_trim_len(s: Seq<char>)
    ensures
        trim(s).len() <= s.len(),
{
    lemma_trim_start_len(s);
    lemma_trim_end_len(trim_start(s));
}

proof fn lemma_trim_start_matches_len(s: Seq<char>, p: Seq<char>)
    ensures
        trim_start_matches(s, p).len() <= s.len(),
    decreases s.len(),
{
    if p.len() > 0 && starts_with(s, p) {
        lemma_trim_start_matches_len(s.skip(p.len() as int), p);
    }
}

proof fn lemma_trim_end_matches_len(s: Seq<char>, p: Seq<char>)
    ensures
        trim_end_matches(s, p).len() <= s.len(),
    decreases s.len(),
{
    if p.len() > 0 && ends_with(s, p) {
        lemma_trim_end_matches_len(s.take(s.len() - p.len()), p);
    }
}

pub proof fn lemma_trim_matches_len(s: Seq<char>, p: Seq<char>)
    ensures
        trim_start_matches(s, p).len() <= s.len(),
        trim_end_matches(s, p).len() <= s.len(),
{
    lemma_trim_start_matches_len(s, p);
    lemma_trim_end_matches_len(s, p);
}

pub proof fn lemma_split_once_len(s: Seq<char>, p: Seq<char>)
    ensures
        split_once(s, p) matches Some((a, b)) ==> a.len() <= s.len() && b.len() + p.len()
            <= s.len(),
        rsplit_once(s, p) matches Some((a, b)) ==> a.len() <= s.len() && b.len() + p.len()
            <= s.len(),
{
    lemma_find_from_occurs(s, p, 0);
    lemma_rfind_before_occurs(s, p, s.len() as int);
}

proof fn lemma_split_acc_len(s: Seq<char>, c: char, i: int, cur: Seq<char>, acc: Seq<Seq<char>>)
    requires
        0 <= i <= s.len(),
        cur.len() <= i,
        forall|j: int| 0 <= j < acc.len() ==> (#[trigger] acc[j]).len() <= s.len(),
    ensures
        forall|j: int|
            0 <= j < split_acc(s, c, i, cur, acc).len() ==> (#[trigger] split_acc(
                s,
                c,
                i,
                cur,
                acc,
            )[j]).len() <= s.len(),
    decreases s.len() - i,
{
    if i < s.len() {
        if s[i] == c {
            let a2 = acc.push(cur);
            assert forall|j: int| 0 <= j < a2.len() implies (#[trigger] a2[j]).len() <= s.len() by {
                if j < acc.len() {
                    assert(a2[j] == acc[j]);
                }
            }
            lemma_split_acc_len(s, c, i + 1, Seq::empty(), a2);
            assert(split_acc(s, c, i, cur, acc) == split_acc(s, c, i + 1, Seq::empty(), a2));
        } else {
            lemma_split_acc_len(s, c, i + 1, cur.push(s[i]), acc);
            assert(split_acc(s, c, i, cur, acc) == split_acc(s, c, i + 1, cur.push(s[i]), acc));
        }
    } else {
        let a2 = acc.push(cur);
        assert forall|j: int| 0 <= j < a2.len() implies (#[trigger] a2[j]).len() <= s.len() by {
            if j < acc.len() {
                assert(a2[j] == acc[j]);
            }
        }
    }
}

pub proof fn lemma_split_len(s: Seq<char>, c: char)
    ensures
        forall|j: int|
            0 <= j < split(s, c).len() ==> (#[trigger] split(s, c)[j]).len() <= s.len(),
{
    lemma_split_acc_len(s, c, 0, Seq::empty(), Seq::empty());
}

/// Relies on `String::push`: the character is appended at the end.
#[verifier::external_body]
pub(crate) fn push_char(s: &mut String, c: char)
    ensures
        final(s)@ == old(s)@.push(c),
{
    s.push(c)
}

/// The characters of `s`, in order.
pub fn chars_of(s: &str) -> (r: Vec<char>)
    ensures
        r@ == s@,
{
    let mut out: Vec<char> = Vec::new();
    let mut it = s.chars();
    assert(it.remaining() == s@);
    loop
        invariant
            out@ + it.remaining() == s@,
            it.obeys_prophetic_iter_laws(),
            it.decrease() is Some,
        ensures
            out@ == s@,
        decreases it.decrease()->0,
    {
        let ghost before = it.remaining();
        match it.next() {
            Some(c) => {
                out.push(c);
                assert(out@ + it.remaining() =~= s@);
            },
            None => {
                assert(before.len() == 0);
                assert(out@ =~= s@);
                break ;
            },
        }
    }
    out
}

/// The views of a sequence of character vectors.
pub open spec fn views(v: Seq<Vec<char>>) -> Seq<Seq<char>> {
    v.map_values(|x: Vec<char>| x@)
}

pub fn is_ws_char(c: char) -> (r: bool)
    ensures
        r == is_ws(c),
{
    let u = c as u32;
    (0x09 <= u && u <= 0x0D) || u == 0x20 || u == 0x85 || u == 0xA0 || u == 0x1680 || (0x2000
        <= u && u <= 0x200A) || u == 0x2028 || u == 0x2029 || u == 0x202F || u == 0x205F || u
        == 0x3000
}

/// The characters of `v` from `a` up to `b`.
pub fn slice(v: &Vec<char>, a: usize, b: usize) -> (r: Vec<char>)
    requires
        a <= b <= v.len(),
    ensures
        r@ == v@.subrange(a as int, b as int),
{
    let mut out: Vec<char> = Vec::new();
    let mut i = a;
    while i < b
        invariant
            a <= i <= b <= v.len(),
            out@ == v@.subrange(a as int, i as int),
        decreases b - i,
    {
        out.push(v[i]);
        i = i + 1;
        assert(out@ =~= v@.subrange(a as int, i as int));
    }
    out
}

/// A `String` holding the characters of `v`.
pub fn to_string(v: &Vec<char>) -> (r: String)
    ensures
        r@ == v@,
{
    let mut out = String::new();
    let mut i: usize = 0;
    while i < v.len()
        invariant
            i <= v.len(),
            out@ == v@.take(i as int),
        decreases v.len() - i,
    {
        push_char(&mut out, v[i]);
        i = i + 1;
        assert(out@ =~= v@.take(i as int));
    }
    assert(v@.take(v.len() as int) =~= v@);
    out
}

pub fn trim_vec(v: &Vec<char>) -> (r: Vec<char>)
    ensures
        r@ == trim(v@),
{
    let n = v.len();
    let mut a: usize = 0;
    assert(v@.skip(0) =~= v@);
    while a < n && is_ws_char(v[a])
        invariant
            a <= n == v.len(),
            trim_start(v@) == trim_start(v@.skip(a as int)),
        decreases n - a,
    {
        assert(v@.skip(a as int).drop_first() =~= v@.skip(a as int + 1));
        a = a + 1;
    }
    let ghost ts = v@.skip(a as int);
    assert(trim_start(ts) == ts);
    let mut b: usize = n;
    assert(v@.subrange(a as int, n as int) =~= ts);
    while b > a && is_ws_char(v[b - 1])
        invariant
            a <= b <= n == v.len(),
            trim_end(ts) == trim_end(v@.subrange(a as int, b as int)),
            ts == v@.skip(a as int),
        decreases b,
    {
        assert(v@.subrange(a as int, b as int).drop_last() =~= v@.subrange(a as int, b - 1));
        b = b - 1;
    }
    assert(v@.skip(a as int) =~= v@.subrange(a as int, n as int));
    slice(v, a, b)
}

pub fn occurs_at_exec(s: &Vec<char>, p: &Vec<char>, i: usize) -> (r: bool)
    ensures
        r == occurs_at(s@, p@, i as int),
{
    if i > s.len() || p.len() > s.len() - i {
        return false;
    }
    let mut j: usize = 0;
    while j < p.len()
        invariant
            i + p.len() <= s.len(),
            j <= p.len(),
            forall|k: int| 0 <= k < j ==> s@[i + k] == p@[k],
        decreases p.len() - j,
    {
        if s[i + j] != p[j] {
            assert(s@.subrange(i as int, i + p.len())[j as int] != p@[j as int]);
            return false;
        }
        j = j + 1;
    }
    assert(s@.subrange(i as int, i + p.len()) =~= p@);
    true
}

pub fn starts_with_exec(s: &Vec<char>, p: &Vec<char>) -> (r: bool)
    ensures
        r == starts_with(s@, p@),
{
    occurs_at_exec(s, p, 0)
}

pub fn ends_with_exec(s: &Vec<char>, p: &Vec<char>) -> (r: bool)
    ensures
        r == ends_with(s@, p@),
{
    if p.len() > s.len() {
        false
    } else {
        occurs_at_exec(s, p, s.len() - p.len())
    }
}

/// The first position where `p` occurs in `s`.
pub fn find_exec(s: &Vec<char>, p: &Vec<char>) -> (r: Option<usize>)
    ensures
        r is Some <==> find_from(s@, p@, 0) is Some,
        r matches Some(k) ==> find_from(s@, p@, 0) == Some(k as int),
{
    if p.len() == 0 {
        assert(s@.subrange(0, 0) =~= p@);
        return Some(0);
    }
    let mut i: usize = 0;
    while i < s.len()
        invariant
            p.len() > 0,
            i <= s.len(),
            find_from(s@, p@, 0) == find_from(s@, p@, i as int),
        decreases s.len() + 1 - i,
    {
        if p.len() > s.len() - i {
            return None;
        }
        if occurs_at_exec(s, p, i) {
            return Some(i);
        }
        i = i + 1;
    }
    None
}

/// The last position where `p` occurs in `s`.
pub fn rfind_exec(s: &Vec<char>, p: &Vec<char>) -> (r: Option<usize>)
    ensures
        r is Some <==> rfind_before(s@, p@, s@.len() as int) is Some,
        r matches Some(k) ==> rfind_before(s@, p@, s@.len() as int) == Some(k as int),
{
    let mut k: usize = s.len();
    while k > 0
        invariant
            k <= s.len(),
            rfind_before(s@, p@, s@.len() as int) == rfind_before(s@, p@, k as int),
        decreases k,
    {
        if occurs_at_exec(s, p, k - 1) {
            return Some(k - 1);
        }
        k = k - 1;
    }
    None
}

pub fn contains_exec(s: &Vec<char>, p: &Vec<char>) -> (r: bool)
    ensures
        r == contains(s@, p@),
{
    find_exec(s, p).is_some()
}

pub fn split_once_exec(s: &Vec<char>, p: &Vec<char>) -> (r: Option<(Vec<char>, Vec<char>)>)
    ensures
        match split_once(s@, p@) {
            Some((a, b)) => r is Some && (r->0).0@ == a && (r->0).1@ == b,
            None => r is None,
        },
{
    proof {
        lemma_find_from_occurs(s@, p@, 0);
    }
    match find_exec(s, p) {
        Some(k) => {
            let n = s.len();
            Some((slice(s, 0, k), slice(s, k + p.len(), n)))
        },
        None => None,
    }
}

pub fn rsplit_once_exec(s: &Vec<char>, p: &Vec<char>) -> (r: Option<(Vec<char>, Vec<char>)>)
    ensures
        match rsplit_once(s@, p@) {
            Some((a, b)) => r is Some && (r->0).0@ == a && (r->0).1@ == b,
            None => r is None,
        },
{
    proof {
        lemma_rfind_before_occurs(s@, p@, s@.len() as int);
    }
    match rfind_exec(s, p) {
        Some(k) => {
            let n = s.len();
            Some((slice(s, 0, k), slice(s, k + p.len(), n)))
        },
        None => None,
    }
}

pub fn strip_prefix_exec(s: &Vec<char>, p: &Vec<char>) -> (r: Option<Vec<char>>)
    ensures
        starts_with(s@, p@) ==> r is Some && r->0@ == s@.skip(p@.len() as int),
        !starts_with(s@, p@) ==> r is None,
{
    if starts_with_exec(s, p) {
        Some(slice(s, p.len(), s.len()))
    } else {
        None
    }
}

pub fn trim_start_matches_exec(s: &Vec<char>, p: &Vec<char>) -> (r: Vec<char>)
    ensures
        r@ == trim_start_matches(s@, p@),
{
    if p.len() == 0 {
        return slice(s, 0, s.len());
    }
    let mut a: usize = 0;
    assert(s@.skip(0) =~= s@);
    loop
        invariant
            p.len() > 0,
            a <= s.len(),
            trim_start_matches(s@, p@) == trim_start_matches(s@.skip(a as int), p@),
        decreases s.len() - a,
    {
        let ghost t = s@.skip(a as int);
        if !occurs_at_exec(s, p, a) {
            assert(!starts_with(t, p@)) by {
                if starts_with(t, p@) {
                    assert(t.subrange(0, p@.len() as int) =~= s@.subrange(a as int, a + p@.len()));
                }
            }
            assert(t =~= s@.subrange(a as int, s@.len() as int));
            return slice(s, a, s.len());
        }
        assert(t.subrange(0, p@.len() as int) =~= s@.subrange(a as int, a + p@.len()));
        assert(t.skip(p@.len() as int) =~= s@.skip(a + p@.len()));
        a = a + p.len();
    }
}

pub fn trim_end_matches_exec(s: &Vec<char>, p: &Vec<char>) -> (r: Vec<char>)
    ensures
        r@ == trim_end_matches(s@, p@),
{
    if p.len() == 0 {
        return slice(s, 0, s.len());
    }
    let mut b: usize = s.len();
    assert(s@.take(b as int) =~= s@);
    loop
        invariant
            p.len() > 0,
            b <= s.len(),
            trim_end_matches(s@, p@) == trim_end_matches(s@.take(b as int), p@),
        decreases b,
    {
        let ghost t = s@.take(b as int);
        if b < p.len() || !occurs_at_exec(s, p, b - p.len()) {
            assert(!ends_with(t, p@)) by {
                if ends_with(t, p@) {
                    assert(t.subrange(b - p@.len(), b as int) =~= s@.subrange(
                        b - p@.len(),
                        b as int,
                    ));
                }
            }
            assert(t =~= s@.subrange(0, b as int));
            return slice(s, 0, b);
        }
        assert(t.subrange(b - p@.len(), b as int) =~= s@.subrange(b - p@.len(), b as int));
        assert(t.take(b - p@.len()) =~= s@.take(b - p@.len()));
        b = b - p.len();
    }
}

pub fn trim_matches_exec(s: &Vec<char>, c: char) -> (r: Vec<char>)
    ensures
        r@ == trim_matches(s@, c),
{
    let p = vec![c];
    assert(p@ =~= seq![c]);
    let t = trim_start_matches_exec(s, &p);
    trim_end_matches_exec(&t, &p)
}

/// Whether `s` is exactly `p`.
pub fn equals_exec(s: &Vec<char>, p: &Vec<char>) -> (r: bool)
    ensures
        r == (s@ == p@),
{
    if s.len() != p.len() {
        return false;
    }
    let r = starts_with_exec(s, p);
    assert(r ==> s@ =~= p@);
    assert(s@ == p@ ==> s@.subrange(0, p@.len() as int) =~= p@);
    r
}

/// The pieces of `s` between occurrences of `c`.
pub fn split_exec(s: &Vec<char>, c: char) -> (r: Vec<Vec<char>>)
    ensures
        views(r@) == split(s@, c),
{
    let mut acc: Vec<Vec<char>> = Vec::new();
    let mut cur: Vec<char> = Vec::new();
    let mut i: usize = 0;
    assert(views(acc@) =~= Seq::<Seq<char>>::empty());
    assert(cur@ =~= Seq::<char>::empty());
    while i < s.len()
        invariant
            i <= s.len(),
            split(s@, c) == split_acc(s@, c, i as int, cur@, views(acc@)),
        decreases s.len() - i,
    {
        let ghost old_views = views(acc@);
        if s[i] == c {
            let ghost done_view = cur@;
            acc.push(cur);
            cur = Vec::new();
            assert(views(acc@) =~= old_views.push(done_view));
            assert(cur@ =~= Seq::<char>::empty());
        } else {
            cur.push(s[i]);
        }
        i = i + 1;
    }
    let ghost old_views = views(acc@);
    let ghost last = cur@;
    acc.push(cur);
    assert(views(acc@) =~= old_views.push(last));
    acc
}

} // verus!
