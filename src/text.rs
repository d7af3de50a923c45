use vstd::prelude::*;

use crate::parse_tree::push_char;

verus! {

/// Whether two strings hold the same characters.
pub fn same_text(a: &str, b: &str) -> (r: bool)
    ensures
        r == (a@ == b@),
{
    let n = a.unicode_len();
    if n != b.unicode_len() {
        return false;
    }
    let mut i: usize = 0;
    while i < n
        invariant
            n == a@.len(),
            n == b@.len(),
            i <= n,
            a@.subrange(0, i as int) == b@.subrange(0, i as int),
        decreases n - i,
    {
        if a.get_char(i) != b.get_char(i) {
            assert(a@[i as int] != b@[i as int]);
            return false;
        }
        assert(a@.subrange(0, i + 1) =~= a@.subrange(0, i as int).push(a@[i as int]));
        assert(b@.subrange(0, i + 1) =~= b@.subrange(0, i as int).push(b@[i as int]));
        i = i + 1;
    }
    assert(a@ =~= a@.subrange(0, n as int));
    assert(b@ =~= b@.subrange(0, n as int));
    true
}

/// The position of the first `c` in `s`.
pub open spec fn index_of(s: Seq<char>, c: char) -> Option<int>
    decreases s.len(),
{
    if s.len() == 0 {
        None
    } else if s[0] == c {
        Some(0)
    } else {
        match index_of(s.drop_first(), c) {
            Some(i) => Some(i + 1),
            None => None,
        }
    }
}

/// The pieces of `s` between occurrences of `c`, as `str::split` gives them.
pub open spec fn pieces(s: Seq<char>, c: char) -> Seq<Seq<char>>
    decreases s.len(),
{
    match index_of(s, c) {
        Some(i) => if 0 <= i < s.len() {
            seq![s.subrange(0, i)] + pieces(s.subrange(i + 1, s.len() as int), c)
        } else {
            seq![s]
        },
        None => seq![s],
    }
}

/// Leading white space of `s`.
pub open spec fn lead(s: Seq<char>) -> int
    decreases s.len(),
{
    if s.len() > 0 && crate::parse_tree::is_space(s[0]) {
        1 + lead(s.drop_first())
    } else {
        0
    }
}

/// Trailing white space of `s`.
pub open spec fn trail(s: Seq<char>) -> int
    decreases s.len(),
{
    if s.len() > 0 && crate::parse_tree::is_space(s.last()) {
        1 + trail(s.drop_last())
    } else {
        0
    }
}

/// `s` without leading and trailing white space, as `str::trim` gives it.
pub open spec fn trimmed(s: Seq<char>) -> Seq<char> {
    let r = s.subrange(lead(s), s.len() as int);
    r.subrange(0, r.len() - trail(r))
}

pub proof fn lemma_index_of_range(s: Seq<char>, c: char)
    ensures
        index_of(s, c) matches Some(i) ==> 0 <= i < s.len() && s[i] == c && forall|j: int| 0 <= j < i ==> s[j] != c,
        index_of(s, c) is None ==> forall|j: int| 0 <= j < s.len() ==> s[j] != c,
    decreases s.len(),
{
    if s.len() > 0 && s[0] != c {
        lemma_index_of_range(s.drop_first(), c);
        assert forall|j: int| 1 <= j < s.len() implies s[j] == s.drop_first()[j - 1] by {}
    }
}

/// A first `c` in `a + b` after an `a` free of `c` lies in `b`.
pub proof fn lemma_index_of_concat(a: Seq<char>, b: Seq<char>, c: char)
    requires
        forall|j: int| 0 <= j < a.len() ==> a[j] != c,
    ensures
        index_of(a + b, c) == match index_of(b, c) {
            Some(i) => Some(i + a.len()),
            None => None::<int>,
        },
    decreases a.len(),
{
    if a.len() > 0 {
        assert((a + b).drop_first() =~= a.drop_first() + b);
        lemma_index_of_concat(a.drop_first(), b, c);
    } else {
        assert(a + b =~= b);
    }
}

/// The pieces of `line` between occurrences of `sep`.
pub fn split_char(line: &str, sep: char) -> (r: Vec<String>)
    ensures
        r@.map_values(|p: String| p@) == pieces(line@, sep),
{
    let n = line.unicode_len();
    let mut out: Vec<String> = Vec::new();
    let mut cur = String::new();
    let mut i: usize = 0;
    proof {
        assert(cur@ + line@.subrange(0, n as int) =~= line@);
    }
    while i < n
        invariant
            n == line@.len(),
            i <= n,
            forall|j: int| 0 <= j < cur@.len() ==> cur@[j] != sep,
            out@.map_values(|p: String| p@) + pieces(cur@ + line@.subrange(i as int, n as int), sep) == pieces(
                line@,
                sep,
            ),
        decreases n - i,
    {
        let c = line.get_char(i);
        let ghost rest = line@.subrange(i + 1, n as int);
        proof {
            assert(line@.subrange(i as int, n as int) =~= seq![c] + rest);
        }
        if c == sep {
            proof {
                let whole = cur@ + (seq![c] + rest);
                lemma_index_of_concat(cur@, seq![c] + rest, sep);
                assert(index_of(seq![c] + rest, sep) == Some(0int));
                assert(whole.subrange(0, cur@.len() as int) =~= cur@);
                assert(whole.subrange(cur@.len() + 1int, whole.len() as int) =~= rest);
                assert(pieces(whole, sep) == seq![cur@] + pieces(rest, sep));
            }
            let ghost before = out@;
            let ghost piece = cur@;
            out.push(cur);
            cur = String::new();
            proof {
                assert(out@.map_values(|p: String| p@) =~= before.map_values(|p: String| p@).push(piece));
                assert(cur@ + line@.subrange(i + 1, n as int) =~= rest);
                assert(out@.map_values(|p: String| p@) + pieces(rest, sep) =~= before.map_values(|p: String| p@)
                    + (seq![piece] + pieces(rest, sep)));
            }
        } else {
            let ghost old_cur = cur@;
            push_char(&mut cur, c);
            proof {
                assert(cur@ + line@.subrange(i + 1, n as int) =~= old_cur + line@.subrange(i as int, n as int));
            }
        }
        i = i + 1;
    }
    proof {
        assert(line@.subrange(n as int, n as int) =~= Seq::<char>::empty());
        assert(cur@ + Seq::<char>::empty() =~= cur@);
        lemma_index_of_range(cur@, sep);
    }
    let ghost before = out@;
    out.push(cur);
    proof {
        assert(out@.map_values(|p: String| p@) =~= before.map_values(|p: String| p@).push(out@[before.len() as int]@));
    }
    out
}

/// `s` without leading and trailing white space.
pub fn trim(s: &str) -> (r: String)
    ensures
        r@ == trimmed(s@),
{
    let n = s.unicode_len();
    let mut l: usize = 0;
    proof {
        assert(s@.subrange(0, n as int) =~= s@);
    }
    while l < n && crate::parse_tree::is_space_char(s.get_char(l))
        invariant
            n == s@.len(),
            l <= n,
            lead(s@) == l + lead(s@.subrange(l as int, n as int)),
        decreases n - l,
    {
        proof {
            assert(s@.subrange(l as int, n as int).drop_first() =~= s@.subrange(l + 1, n as int));
        }
        l = l + 1;
    }
    let ghost r = s@.subrange(l as int, n as int);
    proof {
        if l < n {
            assert(s@.subrange(l as int, n as int)[0] == s@[l as int]);
        }
        assert(lead(s@) == l);
    }
    let mut t: usize = 0;
    proof {
        assert(r.subrange(0, r.len() as int) =~= r);
    }
    while t < n - l && crate::parse_tree::is_space_char(s.get_char(n - 1 - t))
        invariant
            n == s@.len(),
            l <= n,
            r == s@.subrange(l as int, n as int),
            t <= n - l,
            trail(r) == t + trail(r.subrange(0, r.len() - t)),
        decreases n - l - t,
    {
        proof {
            let q = r.subrange(0, r.len() - t);
            assert(q.last() == s@[n - 1 - t]);
            assert(q.drop_last() =~= r.subrange(0, r.len() - t - 1));
        }
        t = t + 1;
    }
    proof {
        let q = r.subrange(0, r.len() - t);
        if t < n - l {
            assert(q.last() == s@[n - 1 - t]);
        }
        assert(trail(r) == t);
        assert(s@.subrange(l as int, n - t) =~= r.subrange(0, r.len() - t));
    }
    let piece = s.substring_char(l, n - t);
    piece.to_owned()
}

/// What comes before and after the first `c` in `s`, if there is one.
pub fn split_once(s: &str, c: char) -> (r: Option<(String, String)>)
    ensures
        match index_of(s@, c) {
            Some(i) => r matches Some((a, b)) && a@ == s@.subrange(0, i) && b@ == s@.subrange(i + 1, s@.len() as int),
            None => r is None,
        },
{
    let n = s.unicode_len();
    let mut i: usize = 0;
    proof {
        lemma_index_of_range(s@, c);
    }
    while i < n
        invariant
            n == s@.len(),
            i <= n,
            forall|j: int| 0 <= j < i ==> s@[j] != c,
            index_of(s@, c) matches Some(k) ==> 0 <= k < s@.len() && s@[k] == c && forall|j: int| 0 <= j < k ==> s@[j] != c,
            index_of(s@, c) is None ==> forall|j: int| 0 <= j < s@.len() ==> s@[j] != c,
        decreases n - i,
    {
        if s.get_char(i) == c {
            let a = s.substring_char(0, i).to_owned();
            let b = s.substring_char(i + 1, n).to_owned();
            return Some((a, b));
        }
        i = i + 1;
    }
    None
}

/// Whether `s` begins with `prefix`.
pub fn starts_with(s: &str, prefix: &str) -> (r: bool)
    ensures
        r == (prefix@.len() <= s@.len() && s@.subrange(0, prefix@.len() as int) == prefix@),
{
    let n = s.unicode_len();
    let m = prefix.unicode_len();
    if m > n {
        return false;
    }
    let head = s.substring_char(0, m);
    same_text(head, prefix)
}

/// Converts text into an owned string.
pub trait BecomeString: Sized {
    spec fn text(&self) -> Seq<char>;

    fn as_string(self) -> (r: String)
        ensures
            r@ == self.text(),
    ;
}

impl BecomeString for String {
    open spec fn text(&self) -> Seq<char> {
        self@
    }

    fn as_string(self) -> (r: String) {
        self
    }
}

impl<'a> BecomeString for &'a str {
    open spec fn text(&self) -> Seq<char> {
        (*self)@
    }

    fn as_string(self) -> (r: String) {
        self.to_owned()
    }
}

} // verus!
