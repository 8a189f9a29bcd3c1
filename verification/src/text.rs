//! Text helpers over character sequences: comparison, prefixes and suffixes,
//! substring search and replacement, decimal numbers.
use vstd::prelude::*;
use vstd::string::StringExecFns;
use vstd::std_specs::iter::IteratorSpec;

verus! {

broadcast use vstd::string::group_string_axioms;

/// Appends `c` to `s` (`String::push`).
#[verifier::external_body]
pub(crate) fn push_char(s: &mut String, c: char)
    ensures
        final(s)@ == old(s)@.push(c),
{
    s.push(c);
}

/// The characters of `s`, in order.
pub fn chars_of(s: &str) -> (v: Vec<char>)
    ensures
        v@ == s@,
{
    let mut it = s.chars();
    let mut v: Vec<char> = Vec::new();
    loop
        invariant
            v@ + it.remaining() == s@,
            it.obeys_prophetic_iter_laws(),
            it.decrease() is Some,
        decreases it.decrease()->0,
    {
        let ghost before = it;
        match it.next() {
            Some(c) => {
                proof {
                    assert(before.remaining().len() > 0);
                    assert(v@.push(c) + it.remaining() =~= v@ + before.remaining());
                }
                v.push(c);
            },
            None => {
                proof {
                    assert(before.remaining().len() == 0);
                    assert(v@ =~= s@);
                }
                return v;
            },
        }
    }
}

/// A string holding the characters `v`.
pub fn string_of(v: &[char]) -> (s: String)
    ensures
        s@ == v@,
{
    let mut s = String::new();
    let mut i: usize = 0;
    while i < v.len()
        invariant
            i <= v@.len(),
            s@ == v@.take(i as int),
        decreases v@.len() - i,
    {
        push_char(&mut s, v[i]);
        proof {
            assert(v@.take(i as int + 1) =~= v@.take(i as int).push(v@[i as int]));
        }
        i = i + 1;
    }
    assert(v@.take(v@.len() as int) =~= v@);
    s
}

/// Appends the characters `v` to `s`.
pub fn push_chars(s: &mut String, v: &[char])
    ensures
        final(s)@ == old(s)@ + v@,
{
    let ghost s0 = s@;
    let mut i: usize = 0;
    while i < v.len()
        invariant
            i <= v@.len(),
            s@ == s0 + v@.take(i as int),
        decreases v@.len() - i,
    {
        push_char(s, v[i]);
        proof {
            assert(v@.take(i as int + 1) =~= v@.take(i as int).push(v@[i as int]));
            assert(s0 + v@.take(i as int + 1) =~= (s0 + v@.take(i as int)).push(v@[i as int]));
        }
        i = i + 1;
    }
    assert(v@.take(v@.len() as int) =~= v@);
}

/// Appends `t` to `s`.
pub fn push_str(s: &mut String, t: &str)
    ensures
        final(s)@ == old(s)@ + t@,
{
    s.append(t);
}

/// `s` followed by `t`, as a new string.
pub fn concat2(s: &str, t: &str) -> (r: String)
    ensures
        r@ == s@ + t@,
{
    let mut r = String::from_str(s);
    r.append(t);
    r
}

/// Whether `a` and `b` hold the same characters.
pub fn str_eq(a: &str, b: &str) -> (r: bool)
    ensures
        r == (a@ == b@),
{
    let av = chars_of(a);
    let bv = chars_of(b);
    seq_eq(av.as_slice(), bv.as_slice())
}

/// Whether the two character slices are equal.
pub fn seq_eq(a: &[char], b: &[char]) -> (r: bool)
    ensures
        r == (a@ == b@),
{
    if a.len() != b.len() {
        return false;
    }
    let mut i: usize = 0;
    while i < a.len()
        invariant
            a@.len() == b@.len(),
            i <= a@.len(),
            forall|j: int| 0 <= j < i ==> a@[j] == b@[j],
        decreases a@.len() - i,
    {
        if a[i] != b[i] {
            return false;
        }
        i = i + 1;
    }
    assert(a@ =~= b@);
    true
}

/// `p` occurs in `s` at position `i`.
pub open spec fn occurs_at(s: Seq<char>, p: Seq<char>, i: int) -> bool {
    0 <= i && i + p.len() <= s.len() && s.subrange(i, i + p.len()) == p
}

/// `s` starts with `p`.
pub open spec fn starts_with_spec(s: Seq<char>, p: Seq<char>) -> bool {
    occurs_at(s, p, 0)
}

/// `s` ends with `p`.
pub open spec fn ends_with_spec(s: Seq<char>, p: Seq<char>) -> bool {
    occurs_at(s, p, s.len() - p.len())
}

/// `p` occurs somewhere in `s`.
pub open spec fn contains_spec(s: Seq<char>, p: Seq<char>) -> bool {
    exists|i: int| #[trigger] occurs_at(s, p, i)
}

/// Whether `p` occurs in `s` at position `i`.
pub fn occurs_at_exec(s: &[char], p: &[char], i: usize) -> (r: bool)
    ensures
        r == occurs_at(s@, p@, i as int),
{
    if i > s.len() || p.len() > s.len() - i {
        return false;
    }
    let mut j: usize = 0;
    while j < p.len()
        invariant
            s@.len() == s.len(),
            i + p@.len() <= s@.len(),
            j <= p@.len(),
            forall|m: int| 0 <= m < j ==> s@[i + m] == p@[m],
        decreases p@.len() - j,
    {
        if s[i + j] != p[j] {
            assert(s@.subrange(i as int, i + p@.len())[j as int] != p@[j as int]);
            return false;
        }
        j = j + 1;
    }
    assert(s@.subrange(i as int, i + p@.len()) =~= p@);
    true
}

/// Whether `s` starts with `p`.
pub fn starts_with_chars(s: &[char], p: &[char]) -> (r: bool)
    ensures
        r == starts_with_spec(s@, p@),
{
    occurs_at_exec(s, p, 0)
}

/// Whether `s` ends with `p`.
pub fn ends_with_chars(s: &[char], p: &[char]) -> (r: bool)
    ensures
        r == ends_with_spec(s@, p@),
{
    if p.len() > s.len() {
        return false;
    }
    occurs_at_exec(s, p, s.len() - p.len())
}

/// First position at or after `from` where `p` occurs in `s`.
pub fn find_from(s: &[char], p: &[char], from: usize) -> (r: Option<usize>)
    ensures
        match r {
            Some(i) => from <= i && occurs_at(s@, p@, i as int) && forall|j: int|
                from <= j < i ==> !occurs_at(s@, p@, j),
            None => forall|j: int| from <= j ==> !occurs_at(s@, p@, j),
        },
{
    let mut i: usize = from;
    while i < s.len()
        invariant
            from <= i,
            forall|j: int| from <= j < i ==> !occurs_at(s@, p@, j),
        decreases s@.len() - i,
    {
        if occurs_at_exec(s, p, i) {
            return Some(i);
        }
        i = i + 1;
    }
    if occurs_at_exec(s, p, i) {
        return Some(i);
    }
    assert forall|j: int| from <= j implies !occurs_at(s@, p@, j) by {
        if j > i {
            assert(!(j + p@.len() <= s@.len()));
        }
    }
    None
}

/// Whether `p` occurs in `s`.
pub fn contains_chars(s: &[char], p: &[char]) -> (r: bool)
    ensures
        r == contains_spec(s@, p@),
{
    match find_from(s, p, 0) {
        Some(i) => true,
        None => {
            assert forall|j: int| !#[trigger] occurs_at(s@, p@, j) by {
                if j < 0 {
                }
            }
            false
        },
    }
}

/// `s` with every non-overlapping occurrence of `p` (searched left to right)
/// replaced by `q`; an empty `p` is not replaced.
pub open spec fn replace_from(s: Seq<char>, p: Seq<char>, q: Seq<char>, i: int) -> Seq<char>
    decreases s.len() - i,
{
    if i >= s.len() || p.len() == 0 {
        s.subrange(if i < s.len() { i } else { s.len() as int }, s.len() as int)
    } else if occurs_at(s, p, i) {
        q + replace_from(s, p, q, i + p.len())
    } else {
        seq![s[i]] + replace_from(s, p, q, i + 1)
    }
}

/// `s` with every non-overlapping occurrence of the non-empty `p` replaced by `q`.
pub open spec fn replace_spec(s: Seq<char>, p: Seq<char>, q: Seq<char>) -> Seq<char> {
    replace_from(s, p, q, 0)
}

/// `s` with the first occurrence of `p` replaced by `q` (unchanged where `p`
/// does not occur).
pub open spec fn replace_first_spec(s: Seq<char>, p: Seq<char>, q: Seq<char>) -> Seq<char> {
    if contains_spec(s, p) {
        let i = choose|i: int| occurs_at(s, p, i) && forall|j: int| 0 <= j < i ==> !occurs_at(s, p, j);
        s.subrange(0, i) + q + s.subrange(i + p.len(), s.len() as int)
    } else {
        s
    }
}

/// Replaces every non-overlapping occurrence of the non-empty `p` in `s` by `q`.
pub fn replace_chars(s: &[char], p: &[char], q: &[char]) -> (r: Vec<char>)
    requires
        p@.len() > 0,
    ensures
        r@ == replace_spec(s@, p@, q@),
{
    let mut out: Vec<char> = Vec::new();
    let mut i: usize = 0;
    while i < s.len()
        invariant
            p@.len() > 0,
            i <= s@.len(),
            out@ + replace_from(s@, p@, q@, i as int) == replace_spec(s@, p@, q@),
        decreases s@.len() - i,
    {
        if occurs_at_exec(s, p, i) {
            let mut j: usize = 0;
            let ghost o0 = out@;
            while j < q.len()
                invariant
                    j <= q@.len(),
                    out@ == o0 + q@.take(j as int),
                decreases q@.len() - j,
            {
                out.push(q[j]);
                proof {
                    assert(q@.take(j as int + 1) =~= q@.take(j as int).push(q@[j as int]));
                }
                j = j + 1;
            }
            proof {
                assert(q@.take(q@.len() as int) =~= q@);
                assert(o0 + (q@ + replace_from(s@, p@, q@, i + p@.len())) =~= o0 + q@ + replace_from(
                    s@,
                    p@,
                    q@,
                    i + p@.len(),
                ));
            }
            i = i + p.len();
        } else {
            proof {
                assert(out@ + (seq![s@[i as int]] + replace_from(s@, p@, q@, i + 1)) =~= out@.push(s@[i as int])
                    + replace_from(s@, p@, q@, i + 1));
            }
            out.push(s[i]);
            i = i + 1;
        }
    }
    proof {
        assert(replace_from(s@, p@, q@, i as int) =~= Seq::<char>::empty());
        assert(out@ + Seq::<char>::empty() =~= out@);
    }
    out
}

/// Replaces the first occurrence of `p` in `s` by `q`.
pub fn replace_first_chars(s: &[char], p: &[char], q: &[char]) -> (r: Vec<char>)
    ensures
        r@ == replace_first_spec(s@, p@, q@),
{
    match find_from(s, p, 0) {
        None => {
            assert(!contains_spec(s@, p@)) by {
                if contains_spec(s@, p@) {
                    let j = choose|j: int| #[trigger] occurs_at(s@, p@, j);
                }
            }
            let mut out: Vec<char> = Vec::new();
            let mut k: usize = 0;
            while k < s.len()
                invariant
                    k <= s@.len(),
                    out@ == s@.take(k as int),
                decreases s@.len() - k,
            {
                out.push(s[k]);
                proof {
                    assert(s@.take(k as int + 1) =~= s@.take(k as int).push(s@[k as int]));
                }
                k = k + 1;
            }
            assert(s@.take(s@.len() as int) =~= s@);
            out
        },
        Some(i) => {
            proof {
                assert(contains_spec(s@, p@));
                let c = choose|c: int| occurs_at(s@, p@, c) && forall|j: int| 0 <= j < c ==> !occurs_at(s@, p@, j);
                assert(occurs_at(s@, p@, i as int) && forall|j: int| 0 <= j < i ==> !occurs_at(s@, p@, j));
                if c < i {
                    assert(!occurs_at(s@, p@, c));
                } else if c > i {
                    assert(!occurs_at(s@, p@, i as int));
                }
            }
            let mut out: Vec<char> = Vec::new();
            let mut k: usize = 0;
            while k < i
                invariant
                    i <= s@.len(),
                    k <= i,
                    out@ == s@.take(k as int),
                decreases i - k,
            {
                out.push(s[k]);
                proof {
                    assert(s@.take(k as int + 1) =~= s@.take(k as int).push(s@[k as int]));
                }
                k = k + 1;
            }
            let mut m: usize = 0;
            while m < q.len()
                invariant
                    m <= q@.len(),
                    out@ == s@.take(i as int) + q@.take(m as int),
                decreases q@.len() - m,
            {
                out.push(q[m]);
                proof {
                    assert(q@.take(m as int + 1) =~= q@.take(m as int).push(q@[m as int]));
                }
                m = m + 1;
            }
            assert(s@.len() == s.len());
            let mut k2: usize = i + p.len();
            let ghost base = out@;
            while k2 < s.len()
                invariant
                    i + p@.len() <= k2 <= s@.len(),
                    out@ == base + s@.subrange(i + p@.len(), k2 as int),
                decreases s@.len() - k2,
            {
                out.push(s[k2]);
                proof {
                    assert(s@.subrange(i + p@.len(), k2 + 1) =~= s@.subrange(i + p@.len(), k2 as int).push(s@[k2 as int]));
                }
                k2 = k2 + 1;
            }
            assert(out@ =~= s@.subrange(0, i as int) + q@ + s@.subrange(i + p@.len(), s@.len() as int));
            out
        },
    }
}

/// Decimal digits of `n`, most significant first, without leading zeros
/// ("0" for zero).
pub open spec fn decimal(n: nat) -> Seq<char>
    decreases n,
{
    if n < 10 {
        seq![digit_char(n)]
    } else {
        decimal(n / 10).push(digit_char(n % 10))
    }
}

/// The character of decimal digit `d`.
pub open spec fn digit_char(d: nat) -> char {
    if d == 0 {
        '0'
    } else if d == 1 {
        '1'
    } else if d == 2 {
        '2'
    } else if d == 3 {
        '3'
    } else if d == 4 {
        '4'
    } else if d == 5 {
        '5'
    } else if d == 6 {
        '6'
    } else if d == 7 {
        '7'
    } else if d == 8 {
        '8'
    } else {
        '9'
    }
}

pub fn digit_of(d: u64) -> (c: char)
    requires
        d < 10,
    ensures
        c == digit_char(d as nat),
{
    if d == 0 {
        '0'
    } else if d == 1 {
        '1'
    } else if d == 2 {
        '2'
    } else if d == 3 {
        '3'
    } else if d == 4 {
        '4'
    } else if d == 5 {
        '5'
    } else if d == 6 {
        '6'
    } else if d == 7 {
        '7'
    } else if d == 8 {
        '8'
    } else {
        '9'
    }
}

/// Appends the decimal digits of `n` to `s`.
pub fn push_decimal(s: &mut String, n: u64)
    ensures
        final(s)@ == old(s)@ + decimal(n as nat),
    decreases n,
{
    if n < 10 {
        push_char(s, digit_of(n));
        assert(old(s)@.push(digit_char(n as nat)) =~= old(s)@ + seq![digit_char(n as nat)]);
    } else {
        push_decimal(s, n / 10);
        push_char(s, digit_of(n % 10));
        assert((old(s)@ + decimal((n / 10) as nat)).push(digit_char((n % 10) as nat)) =~= old(s)@ + decimal(
            n as nat,
        ));
    }
}

/// The decimal representation of `n`.
pub fn decimal_string(n: u64) -> (s: String)
    ensures
        s@ == decimal(n as nat),
{
    let mut s = String::new();
    push_decimal(&mut s, n);
    assert(Seq::<char>::empty() + decimal(n as nat) =~= decimal(n as nat));
    s
}

/// The last `n` characters of `s` (all of `s` if it is shorter).
pub open spec fn tail_spec(s: Seq<char>, n: int) -> Seq<char> {
    if s.len() <= n {
        s
    } else {
        s.subrange(s.len() - n, s.len() as int)
    }
}

/// The last `n` characters of `s`.
pub fn tail(s: &str, n: usize) -> (r: String)
    ensures
        r@ == tail_spec(s@, n as int),
{
    let v = chars_of(s);
    let start = v.len().saturating_sub(n);
    let mut out = String::new();
    let mut i: usize = start;
    while i < v.len()
        invariant
            start <= i <= v@.len(),
            out@ == v@.subrange(start as int, i as int),
        decreases v@.len() - i,
    {
        push_char(&mut out, v[i]);
        proof {
            assert(v@.subrange(start as int, i + 1) =~= v@.subrange(start as int, i as int).push(v@[i as int]));
        }
        i = i + 1;
    }
    assert(v@.len() <= n ==> v@.subrange(0, v@.len() as int) =~= v@);
    out
}

/// The first `n` characters of `s` (all of `s` if it is shorter).
pub open spec fn head_spec(s: Seq<char>, n: int) -> Seq<char> {
    if s.len() <= n {
        s
    } else {
        s.subrange(0, n)
    }
}

/// The first `n` characters of `s`.
pub fn head(s: &str, n: usize) -> (r: String)
    ensures
        r@ == head_spec(s@, n as int),
{
    let v = chars_of(s);
    let end = if v.len() < n { v.len() } else { n };
    let mut out = String::new();
    let mut i: usize = 0;
    while i < end
        invariant
            end <= v@.len(),
            i <= end,
            out@ == v@.subrange(0, i as int),
        decreases end - i,
    {
        push_char(&mut out, v[i]);
        proof {
            assert(v@.subrange(0, i + 1) =~= v@.subrange(0, i as int).push(v@[i as int]));
        }
        i = i + 1;
    }
    assert(v@.len() <= n ==> v@.subrange(0, v@.len() as int) =~= v@);
    out
}

} // verus!
