//! Byte-level text helpers: ASCII whitespace, trimming, whitespace-separated
//! tokens and line boundaries.
use vstd::prelude::*;

verus! {

/// ASCII whitespace as `char::is_whitespace` sees it: tab, line feed,
/// vertical tab, form feed, carriage return and space.
pub open spec fn is_space(b: u8) -> bool {
    b == 9u8 || b == 10u8 || b == 11u8 || b == 12u8 || b == 13u8 || b == 32u8
}

pub fn byte_is_space(b: u8) -> (r: bool)
    ensures
        r == is_space(b),
{
    b == 9 || b == 10 || b == 11 || b == 12 || b == 13 || b == 32
}

/// First index at or after `i` that holds no whitespace (or the length).
pub open spec fn skip_space(s: Seq<u8>, i: int) -> int
    decreases s.len() - i,
{
    if 0 <= i < s.len() && is_space(s[i]) {
        skip_space(s, i + 1)
    } else {
        i
    }
}

/// Moving back from `j`, the first index whose predecessor is no whitespace,
/// never going below `lo`.
pub open spec fn back_space(s: Seq<u8>, lo: int, j: int) -> int
    decreases j - lo,
{
    if lo < j <= s.len() && is_space(s[j - 1]) {
        back_space(s, lo, j - 1)
    } else {
        j
    }
}

/// `s` without its leading and trailing whitespace.
pub open spec fn trim(s: Seq<u8>) -> Seq<u8> {
    let a = skip_space(s, 0);
    s.subrange(a, back_space(s, a, s.len() as int))
}

/// Whitespace-separated tokens of `s[i..]`, `cur` being the part of a token
/// already read before `i`.
pub open spec fn tokens_acc(s: Seq<u8>, i: int, cur: Seq<u8>) -> Seq<Seq<u8>>
    decreases s.len() - i,
{
    let done = if cur.len() > 0 {
        seq![cur]
    } else {
        Seq::<Seq<u8>>::empty()
    };
    if i < 0 || i >= s.len() {
        done
    } else if is_space(s[i]) {
        done + tokens_acc(s, i + 1, Seq::empty())
    } else {
        tokens_acc(s, i + 1, cur.push(s[i]))
    }
}

/// The maximal runs of non-whitespace bytes of `s`, in order.
pub open spec fn tokens(s: Seq<u8>) -> Seq<Seq<u8>> {
    tokens_acc(s, 0, Seq::empty())
}

/// Lines of `s[i..]` as a line reader yields them, `cur` being the part of
/// a line already read before `i`: each line keeps its line feed, and a last
/// line without one is kept as it is.
pub open spec fn lines_acc(s: Seq<u8>, i: int, cur: Seq<u8>) -> Seq<Seq<u8>>
    decreases s.len() - i,
{
    if i < 0 || i >= s.len() {
        if cur.len() > 0 {
            seq![cur]
        } else {
            Seq::<Seq<u8>>::empty()
        }
    } else if s[i] == 10u8 {
        seq![cur.push(10u8)] + lines_acc(s, i + 1, Seq::empty())
    } else {
        lines_acc(s, i + 1, cur.push(s[i]))
    }
}

/// The lines of `s`.
pub open spec fn lines_of(s: Seq<u8>) -> Seq<Seq<u8>> {
    lines_acc(s, 0, Seq::empty())
}

proof fn lemma_lines_acc_flatten(s: Seq<u8>, i: int, cur: Seq<u8>)
    requires
        0 <= i <= s.len(),
    ensures
        lines_acc(s, i, cur).flatten() == cur + s.subrange(i, s.len() as int),
    decreases s.len() - i,
{
    if i == s.len() {
        if cur.len() > 0 {
            seq![cur].lemma_flatten_one_element();
        }
        assert(cur + s.subrange(i, s.len() as int) =~= cur);
    } else if s[i] == 10u8 {
        lemma_lines_acc_flatten(s, i + 1, Seq::empty());
        let rest = lines_acc(s, i + 1, Seq::empty());
        vstd::seq_lib::lemma_flatten_concat(seq![cur.push(10u8)], rest);
        seq![cur.push(10u8)].lemma_flatten_one_element();
        assert(cur.push(10u8) + (Seq::<u8>::empty() + s.subrange(i + 1, s.len() as int)) =~= cur
            + s.subrange(i, s.len() as int));
    } else {
        lemma_lines_acc_flatten(s, i + 1, cur.push(s[i]));
        assert(cur.push(s[i]) + s.subrange(i + 1, s.len() as int) =~= cur + s.subrange(
            i,
            s.len() as int,
        ));
    }
}

/// The lines of `s`, put back together, are `s`.
pub proof fn lemma_lines_flatten(s: Seq<u8>)
    ensures
        lines_of(s).flatten() == s,
{
    lemma_lines_acc_flatten(s, 0, Seq::empty());
    assert(Seq::<u8>::empty() + s.subrange(0, s.len() as int) =~= s);
}

/// The lines of `s`, as a line reader yields them.
pub fn split_lines(s: &[u8]) -> (r: Vec<Vec<u8>>)
    ensures
        r@.len() == lines_of(s@).len(),
        forall|k: int| 0 <= k < r@.len() ==> #[trigger] r@[k]@ == lines_of(s@)[k],
{
    let n = s.len();
    let mut out: Vec<Vec<u8>> = Vec::new();
    let mut cur: Vec<u8> = Vec::new();
    let ghost mut done: Seq<Seq<u8>> = Seq::empty();
    let mut i: usize = 0;
    while i < n
        invariant
            i <= n == s@.len(),
            out@.len() == done.len(),
            forall|k: int| 0 <= k < out@.len() ==> #[trigger] out@[k]@ == done[k],
            lines_of(s@) == done + lines_acc(s@, i as int, cur@),
        decreases n - i,
    {
        let b = s[i];
        cur.push(b);
        if b == 10 {
            let t = cur;
            proof {
                let prev = t@.drop_last();
                assert(prev.push(10u8) =~= t@);
                assert(lines_acc(s@, i as int, prev) == seq![t@] + lines_acc(
                    s@,
                    i + 1,
                    Seq::empty(),
                ));
                assert(done + seq![t@] + lines_acc(s@, i + 1, Seq::empty()) =~= done + (seq![t@]
                    + lines_acc(s@, i + 1, Seq::empty())));
                done = done.push(t@);
            }
            out.push(t);
            cur = Vec::new();
        }
        i = i + 1;
    }
    if cur.len() > 0 {
        let t = cur;
        proof {
            assert(lines_acc(s@, i as int, t@) =~= seq![t@]);
            done = done.push(t@);
        }
        out.push(t);
    } else {
        proof {
            assert(lines_acc(s@, i as int, cur@) =~= Seq::<Seq<u8>>::empty());
            assert(done + Seq::<Seq<u8>>::empty() =~= done);
        }
    }
    proof {
        assert(lines_of(s@) =~= done);
    }
    out
}

/// Bounds `(a, b)` with `s[a..b]` the trimmed text of `s`.
pub fn trim_bounds(s: &[u8]) -> (r: (usize, usize))
    ensures
        r.0 == skip_space(s@, 0),
        r.1 == back_space(s@, r.0 as int, s@.len() as int),
        r.0 <= r.1 <= s@.len(),
        s@.subrange(r.0 as int, r.1 as int) == trim(s@),
{
    let n = s.len();
    let mut a: usize = 0;
    while a < n && byte_is_space(s[a])
        invariant
            a <= n == s@.len(),
            skip_space(s@, 0) == skip_space(s@, a as int),
        decreases n - a,
    {
        a = a + 1;
    }
    let mut b: usize = n;
    while b > a && byte_is_space(s[b - 1])
        invariant
            a <= b <= n == s@.len(),
            back_space(s@, a as int, n as int) == back_space(s@, a as int, b as int),
        decreases b,
    {
        b = b - 1;
    }
    (a, b)
}

/// `s` without its leading and trailing whitespace.
pub fn trimmed(s: &[u8]) -> (r: Vec<u8>)
    ensures
        r@ == trim(s@),
{
    let (a, b) = trim_bounds(s);
    slice_to_vec(s, a, b)
}

/// A copy of `s[a..b]`.
pub fn slice_to_vec(s: &[u8], a: usize, b: usize) -> (r: Vec<u8>)
    requires
        a <= b <= s@.len(),
    ensures
        r@ == s@.subrange(a as int, b as int),
{
    let mut r: Vec<u8> = Vec::with_capacity(b - a);
    let mut i: usize = a;
    while i < b
        invariant
            a <= i <= b <= s@.len(),
            r@ == s@.subrange(a as int, i as int),
        decreases b - i,
    {
        r.push(s[i]);
        i = i + 1;
        assert(r@ =~= s@.subrange(a as int, i as int));
    }
    r
}

/// Appends `s[a..b]` to `dst`.
pub fn append_range(dst: &mut Vec<u8>, s: &[u8], a: usize, b: usize)
    requires
        a <= b <= s@.len(),
    ensures
        final(dst)@ == old(dst)@ + s@.subrange(a as int, b as int),
{
    let mut i: usize = a;
    while i < b
        invariant
            a <= i <= b <= s@.len(),
            dst@ == old(dst)@ + s@.subrange(a as int, i as int),
        decreases b - i,
    {
        dst.push(s[i]);
        i = i + 1;
        assert(dst@ =~= old(dst)@ + s@.subrange(a as int, i as int));
    }
}

/// Whether `a` and `b` hold the same bytes.
pub fn bytes_equal(a: &[u8], b: &[u8]) -> (r: bool)
    ensures
        r == (a@ == b@),
{
    if a.len() != b.len() {
        return false;
    }
    let mut i: usize = 0;
    while i < a.len()
        invariant
            i <= a@.len() == b@.len(),
            a@.subrange(0, i as int) == b@.subrange(0, i as int),
        decreases a@.len() - i,
    {
        if a[i] != b[i] {
            return false;
        }
        assert(a@.subrange(0, i + 1) =~= a@.subrange(0, i as int).push(a@[i as int]));
        assert(b@.subrange(0, i + 1) =~= b@.subrange(0, i as int).push(b@[i as int]));
        i = i + 1;
    }
    assert(a@ =~= a@.subrange(0, i as int));
    assert(b@ =~= b@.subrange(0, i as int));
    true
}

/// Whether `s` begins with `p`.
pub open spec fn has_prefix(s: Seq<u8>, p: Seq<u8>) -> bool {
    p.len() <= s.len() && s.subrange(0, p.len() as int) == p
}

/// Whether `s[k..]` begins with `p`.
pub open spec fn has_at(s: Seq<u8>, k: int, p: Seq<u8>) -> bool {
    0 <= k && k + p.len() <= s.len() && s.subrange(k, k + p.len()) == p
}

/// Whether `s[k..]` begins with `p`.
pub fn bytes_at(s: &[u8], k: usize, p: &[u8]) -> (r: bool)
    ensures
        r == has_at(s@, k as int, p@),
{
    if k > s.len() || p.len() > s.len() - k {
        return false;
    }
    let sl = s.len();
    let mut i: usize = 0;
    while i < p.len()
        invariant
            i <= p@.len(),
            sl == s@.len(),
            k + p@.len() <= s@.len(),
            s@.subrange(k as int, k + i) == p@.subrange(0, i as int),
        decreases p@.len() - i,
    {
        if s[k + i] != p[i] {
            assert(s@.subrange(k as int, k + p@.len())[i as int] != p@[i as int]);
            return false;
        }
        assert(s@.subrange(k as int, k + i + 1) =~= s@.subrange(k as int, k + i).push(
            s@[k + i],
        ));
        assert(p@.subrange(0, i + 1) =~= p@.subrange(0, i as int).push(p@[i as int]));
        i = i + 1;
    }
    assert(p@ =~= p@.subrange(0, i as int));
    true
}

/// Whitespace-separated tokens of `s`, as `str::split_whitespace` gives them.
pub fn split_tokens(s: &[u8]) -> (r: Vec<Vec<u8>>)
    ensures
        r@.len() == tokens(s@).len(),
        forall|k: int| 0 <= k < r@.len() ==> #[trigger] r@[k]@ == tokens(s@)[k],
{
    let n = s.len();
    let mut out: Vec<Vec<u8>> = Vec::new();
    let mut cur: Vec<u8> = Vec::new();
    let ghost mut done: Seq<Seq<u8>> = Seq::empty();
    let mut i: usize = 0;
    while i < n
        invariant
            i <= n == s@.len(),
            out@.len() == done.len(),
            forall|k: int| 0 <= k < out@.len() ==> #[trigger] out@[k]@ == done[k],
            tokens(s@) == done + tokens_acc(s@, i as int, cur@),
        decreases n - i,
    {
        let b = s[i];
        if byte_is_space(b) {
            if cur.len() > 0 {
                let t = cur;
                proof {
                    assert(done + seq![t@] + tokens_acc(s@, i + 1, Seq::empty()) =~= done
                        + tokens_acc(s@, i as int, t@));
                    done = done.push(t@);
                }
                out.push(t);
            } else {
                proof {
                    assert(tokens_acc(s@, i as int, cur@) =~= tokens_acc(s@, i + 1, Seq::empty()));
                }
            }
            cur = Vec::new();
        } else {
            cur.push(b);
        }
        i = i + 1;
    }
    if cur.len() > 0 {
        let t = cur;
        proof {
            assert(tokens_acc(s@, i as int, t@) =~= seq![t@]);
            done = done.push(t@);
        }
        out.push(t);
    } else {
        proof {
            assert(tokens_acc(s@, i as int, cur@) =~= Seq::<Seq<u8>>::empty());
            assert(done + Seq::<Seq<u8>>::empty() =~= done);
        }
    }
    proof {
        assert(tokens(s@) =~= done);
    }
    out
}

} // verus!
