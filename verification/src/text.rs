//! Character-level utilities: code-point classes and conversions between
//! strings and character vectors.

use vstd::prelude::*;
use vstd::string::*;

verus! {

/// A code point in the Unicode `Cc` (control) category:
/// U+0000..=U+001F and U+007F..=U+009F.
pub open spec fn is_ctrl_char(c: char) -> bool {
    (c as u32) <= 0x1f || (0x7f <= (c as u32) && (c as u32) <= 0x9f)
}

/// A code point with the Unicode `White_Space` property.
pub open spec fn is_space_char(c: char) -> bool {
    ||| (0x9 <= (c as u32) && (c as u32) <= 0xd)
    ||| (c as u32) == 0x20
    ||| (c as u32) == 0x85
    ||| (c as u32) == 0xa0
    ||| (c as u32) == 0x1680
    ||| (0x2000 <= (c as u32) && (c as u32) <= 0x200a)
    ||| (c as u32) == 0x2028
    ||| (c as u32) == 0x2029
    ||| (c as u32) == 0x202f
    ||| (c as u32) == 0x205f
    ||| (c as u32) == 0x3000
}

/// A code point in the ASCII range.
pub open spec fn is_ascii_char(c: char) -> bool {
    (c as u32) <= 0x7f
}

pub open spec fn all_ascii(s: Seq<char>) -> bool {
    forall|i: int| 0 <= i < s.len() ==> is_ascii_char(#[trigger] s[i])
}

pub fn ascii_char(c: char) -> (r: bool)
    ensures
        r == is_ascii_char(c),
{
    (c as u32) <= 0x7f
}

pub fn ctrl_char(c: char) -> (r: bool)
    ensures
        r == is_ctrl_char(c),
{
    let u = c as u32;
    u <= 0x1f || (0x7f <= u && u <= 0x9f)
}

pub fn space_char(c: char) -> (r: bool)
    ensures
        r == is_space_char(c),
{
    let u = c as u32;
    (0x9 <= u && u <= 0xd) || u == 0x20 || u == 0x85 || u == 0xa0 || u == 0x1680 || (0x2000 <= u
        && u <= 0x200a) || u == 0x2028 || u == 0x2029 || u == 0x202f || u == 0x205f || u == 0x3000
}

/// The characters of a string as a vector of code points.
pub fn chars_of(s: &str) -> (r: Vec<char>)
    ensures
        r@ == s@,
{
    let n = s.unicode_len();
    let mut r: Vec<char> = Vec::new();
    let mut i: usize = 0;
    while i < n
        invariant
            i <= n,
            n == s@.len(),
            r@ == s@.subrange(0, i as int),
        decreases n - i,
    {
        r.push(s.get_char(i));
        i = i + 1;
        proof {
            assert(r@ =~= s@.subrange(0, i as int));
        }
    }
    proof {
        assert(r@ =~= s@);
    }
    r
}

/// A fresh copy of a character vector.
pub fn copy_chars(v: &Vec<char>) -> (r: Vec<char>)
    ensures
        r@ == v@,
{
    let mut r: Vec<char> = Vec::new();
    let mut i: usize = 0;
    while i < v.len()
        invariant
            i <= v@.len(),
            r@ == v@.subrange(0, i as int),
        decreases v@.len() - i,
    {
        r.push(v[i]);
        i = i + 1;
        proof {
            assert(r@ =~= v@.subrange(0, i as int));
        }
    }
    proof {
        assert(r@ =~= v@);
    }
    r
}

/// Character-vector equality.
pub fn chars_eq(a: &Vec<char>, b: &Vec<char>) -> (r: bool)
    ensures
        r == (a@ == b@),
{
    if a.len() != b.len() {
        proof {
            assert(a@.len() != b@.len());
        }
        return false;
    }
    let mut i: usize = 0;
    while i < a.len()
        invariant
            i <= a@.len(),
            a@.len() == b@.len(),
            forall|j: int| 0 <= j < i ==> a@[j] == b@[j],
        decreases a@.len() - i,
    {
        if a[i] != b[i] {
            return false;
        }
        i = i + 1;
    }
    proof {
        assert(a@ =~= b@);
    }
    true
}

/// The index of the first newline in `s`, or `s.len()` when none.
pub open spec fn first_nl(s: Seq<char>) -> int
    decreases s.len(),
{
    if s.len() == 0 {
        0
    } else if s[0] == '\n' {
        0
    } else {
        1 + first_nl(s.drop_first())
    }
}

pub proof fn lemma_first_nl(s: Seq<char>)
    ensures
        0 <= first_nl(s) <= s.len(),
        first_nl(s) < s.len() ==> s[first_nl(s)] == '\n',
        forall|j: int| 0 <= j < first_nl(s) ==> s[j] != '\n',
    decreases s.len(),
{
    if s.len() > 0 && s[0] != '\n' {
        lemma_first_nl(s.drop_first());
        assert forall|j: int| 0 <= j < first_nl(s) implies s[j] != '\n' by {
            if j > 0 {
                assert(s.drop_first()[j - 1] == s[j]);
            }
        }
    }
}

/// The lines of `s`, split at `\n`, with a `\r` before the `\n` dropped;
/// a trailing line without a newline counts, an empty tail does not.
pub open spec fn lines_spec(s: Seq<char>) -> Seq<Seq<char>>
    decreases s.len(),
    via lines_spec_dec
{
    if s.len() == 0 {
        Seq::empty()
    } else {
        let i = first_nl(s);
        if i == s.len() {
            seq![s]
        } else {
            let line = if i > 0 && s[i - 1] == '\r' {
                s.subrange(0, i - 1)
            } else {
                s.subrange(0, i)
            };
            seq![line] + lines_spec(s.subrange(i + 1, s.len() as int))
        }
    }
}

#[via_fn]
proof fn lines_spec_dec(s: Seq<char>) {
    lemma_first_nl(s);
}

/// The lines of a character vector.
pub fn lines_of(v: &Vec<char>) -> (r: Vec<Vec<char>>)
    ensures
        r@.len() == lines_spec(v@).len(),
        forall|j: int| 0 <= j < r@.len() ==> #[trigger] r@[j]@ == lines_spec(v@)[j],
{
    let n = v.len();
    let mut r: Vec<Vec<char>> = Vec::new();
    let mut p: usize = 0;
    proof {
        assert(v@.subrange(0, n as int) =~= v@);
        assert(r@.map_values(|x: Vec<char>| x@) =~= Seq::<Seq<char>>::empty());
        assert(lines_spec(v@) =~= r@.map_values(|x: Vec<char>| x@) + lines_spec(
            v@.subrange(0, n as int),
        ));
    }
    while p < n
        invariant
            p <= n,
            n == v@.len(),
            lines_spec(v@) == r@.map_values(|x: Vec<char>| x@) + lines_spec(
                v@.subrange(p as int, n as int),
            ),
        decreases n - p,
    {
        let ghost suffix = v@.subrange(p as int, n as int);
        let mut e: usize = p;
        while e < n && v[e] != '\n'
            invariant
                p <= e <= n,
                n == v@.len(),
                forall|j: int| p <= j < e ==> v@[j] != '\n',
            decreases n - e,
        {
            e = e + 1;
        }
        proof {
            lemma_first_nl(suffix);
            assert forall|j: int| 0 <= j < e - p implies suffix[j] != '\n' by {
                assert(suffix[j] == v@[p + j]);
            }
            if e < n {
                assert(suffix[e - p] == '\n');
            }
            assert(first_nl(suffix) == e - p);
        }
        let line_end: usize = if e > p && v[e - 1] == '\r' && e < n {
            e - 1
        } else {
            e
        };
        let mut line: Vec<char> = Vec::new();
        let mut j: usize = p;
        while j < line_end
            invariant
                p <= j <= line_end <= n,
                n == v@.len(),
                line@ == v@.subrange(p as int, j as int),
            decreases line_end - j,
        {
            line.push(v[j]);
            j = j + 1;
            proof {
                assert(line@ =~= v@.subrange(p as int, j as int));
            }
        }
        proof {
            let i = first_nl(suffix);
            if e == n {
                assert(suffix =~= v@.subrange(p as int, e as int));
                assert(line@ == suffix);
                assert(lines_spec(suffix) == seq![suffix]);
            } else {
                let sline = if i > 0 && suffix[i - 1] == '\r' {
                    suffix.subrange(0, i - 1)
                } else {
                    suffix.subrange(0, i)
                };
                assert(suffix.subrange(0, i) =~= v@.subrange(p as int, e as int));
                if i > 0 {
                    assert(suffix[i - 1] == v@[e - 1]);
                    assert(suffix.subrange(0, i - 1) =~= v@.subrange(p as int, e - 1));
                }
                assert(line@ == sline);
                assert(suffix.subrange(i + 1, suffix.len() as int) =~= v@.subrange(
                    e + 1,
                    n as int,
                ));
                assert(lines_spec(suffix) == seq![sline] + lines_spec(
                    v@.subrange(e + 1, n as int),
                ));
            }
        }
        let ghost r0 = r@;
        let ghost lv = line@;
        r.push(line);
        proof {
            assert(r@.map_values(|x: Vec<char>| x@) =~= r0.map_values(|x: Vec<char>| x@).push(lv));
        }
        if e < n {
            p = e + 1;
        } else {
            p = n;
            proof {
                assert(v@.subrange(n as int, n as int).len() == 0);
            }
        }
        proof {
            assert(lines_spec(v@) =~= r@.map_values(|x: Vec<char>| x@) + lines_spec(
                v@.subrange(p as int, n as int),
            ));
        }
    }
    proof {
        assert(v@.subrange(p as int, n as int).len() == 0);
        assert(lines_spec(v@.subrange(p as int, n as int)) =~= Seq::<Seq<char>>::empty());
        assert(lines_spec(v@) =~= r@.map_values(|x: Vec<char>| x@));
        assert forall|j: int| 0 <= j < r@.len() implies #[trigger] r@[j]@ == lines_spec(v@)[j] by {
            assert(lines_spec(v@)[j] == r@.map_values(|x: Vec<char>| x@)[j]);
        }
    }
    r
}

pub open spec fn trim_start_spec(s: Seq<char>) -> Seq<char>
    decreases s.len(),
{
    if s.len() > 0 && is_space_char(s[0]) {
        trim_start_spec(s.drop_first())
    } else {
        s
    }
}

pub open spec fn trim_end_spec(s: Seq<char>) -> Seq<char>
    decreases s.len(),
{
    if s.len() > 0 && is_space_char(s.last()) {
        trim_end_spec(s.drop_last())
    } else {
        s
    }
}

/// `s` with leading and trailing whitespace dropped.
pub open spec fn trim_spec(s: Seq<char>) -> Seq<char> {
    trim_end_spec(trim_start_spec(s))
}

proof fn lemma_trim_start_at(s: Seq<char>, a: int)
    requires
        0 <= a <= s.len(),
        forall|j: int| 0 <= j < a ==> is_space_char(s[j]),
        a < s.len() ==> !is_space_char(s[a]),
    ensures
        trim_start_spec(s) == s.skip(a),
    decreases a,
{
    if a == 0 {
        assert(s.skip(0) =~= s);
    } else {
        lemma_trim_start_at(s.drop_first(), a - 1);
        assert(s.drop_first().skip(a - 1) =~= s.skip(a));
    }
}

proof fn lemma_trim_end_at(s: Seq<char>, b: int)
    requires
        0 <= b <= s.len(),
        forall|j: int| b <= j < s.len() ==> is_space_char(s[j]),
        b > 0 ==> !is_space_char(s[b - 1]),
    ensures
        trim_end_spec(s) == s.take(b),
    decreases s.len(),
{
    if b == s.len() {
        assert(s.take(b) =~= s);
    } else {
        lemma_trim_end_at(s.drop_last(), b);
        assert(s.drop_last().take(b) =~= s.take(b));
    }
}

/// `v` with leading and trailing whitespace dropped.
pub fn trim_chars(v: &Vec<char>) -> (r: Vec<char>)
    ensures
        r@ == trim_spec(v@),
{
    let n = v.len();
    let mut a: usize = 0;
    while a < n && space_char(v[a])
        invariant
            a <= n,
            n == v@.len(),
            forall|j: int| 0 <= j < a ==> is_space_char(v@[j]),
        decreases n - a,
    {
        a = a + 1;
    }
    let mut b: usize = n;
    while b > a && space_char(v[b - 1])
        invariant
            a <= b <= n,
            n == v@.len(),
            forall|j: int| b <= j < n ==> is_space_char(v@[j]),
        decreases b,
    {
        b = b - 1;
    }
    let mut r: Vec<char> = Vec::new();
    let mut j: usize = a;
    while j < b
        invariant
            a <= j <= b <= n,
            n == v@.len(),
            r@ == v@.subrange(a as int, j as int),
        decreases b - j,
    {
        r.push(v[j]);
        j = j + 1;
        proof {
            assert(r@ =~= v@.subrange(a as int, j as int));
        }
    }
    proof {
        lemma_trim_start_at(v@, a as int);
        let t = v@.skip(a as int);
        assert forall|j2: int| b - a <= j2 < t.len() implies is_space_char(t[j2]) by {
            assert(t[j2] == v@[a + j2]);
        }
        if b > a {
            assert(t[b - a - 1] == v@[b - 1]);
        }
        lemma_trim_end_at(t, b - a);
        assert(t.take(b - a) =~= v@.subrange(a as int, b as int));
        assert(r@ =~= trim_spec(v@));
    }
    r
}

/// The index of the first whitespace character in `s`, or `s.len()`.
pub open spec fn first_ws(s: Seq<char>) -> int
    decreases s.len(),
{
    if s.len() == 0 {
        0
    } else if is_space_char(s[0]) {
        0
    } else {
        1 + first_ws(s.drop_first())
    }
}

pub proof fn lemma_first_ws(s: Seq<char>)
    ensures
        0 <= first_ws(s) <= s.len(),
        first_ws(s) < s.len() ==> is_space_char(s[first_ws(s)]),
        forall|j: int| 0 <= j < first_ws(s) ==> !is_space_char(s[j]),
    decreases s.len(),
{
    if s.len() > 0 && !is_space_char(s[0]) {
        lemma_first_ws(s.drop_first());
        assert forall|j: int| 0 <= j < first_ws(s) implies !is_space_char(s[j]) by {
            if j > 0 {
                assert(s.drop_first()[j - 1] == s[j]);
            }
        }
    }
}

/// The maximal whitespace-free runs of `s`, in order.
pub open spec fn split_ws_spec(s: Seq<char>) -> Seq<Seq<char>>
    decreases s.len(),
    via split_ws_spec_dec
{
    if s.len() == 0 {
        Seq::empty()
    } else if is_space_char(s[0]) {
        split_ws_spec(s.drop_first())
    } else {
        let i = first_ws(s);
        seq![s.take(i)] + split_ws_spec(s.skip(i))
    }
}

#[via_fn]
proof fn split_ws_spec_dec(s: Seq<char>) {
    lemma_first_ws(s);
}

/// The whitespace-separated fields of a character vector.
pub fn split_ws(v: &Vec<char>) -> (r: Vec<Vec<char>>)
    ensures
        r@.len() == split_ws_spec(v@).len(),
        forall|j: int| 0 <= j < r@.len() ==> #[trigger] r@[j]@ == split_ws_spec(v@)[j],
{
    let n = v.len();
    let mut r: Vec<Vec<char>> = Vec::new();
    let mut p: usize = 0;
    proof {
        assert(v@.subrange(0, n as int) =~= v@);
        assert(r@.map_values(|x: Vec<char>| x@) =~= Seq::<Seq<char>>::empty());
        assert(split_ws_spec(v@) =~= r@.map_values(|x: Vec<char>| x@) + split_ws_spec(
            v@.subrange(0, n as int),
        ));
    }
    while p < n
        invariant
            p <= n,
            n == v@.len(),
            split_ws_spec(v@) == r@.map_values(|x: Vec<char>| x@) + split_ws_spec(
                v@.subrange(p as int, n as int),
            ),
        decreases n - p,
    {
        let ghost suffix = v@.subrange(p as int, n as int);
        if space_char(v[p]) {
            proof {
                assert(suffix[0] == v@[p as int]);
                assert(suffix.drop_first() =~= v@.subrange(p + 1, n as int));
            }
            p = p + 1;
        } else {
            let mut e: usize = p;
            while e < n && !space_char(v[e])
                invariant
                    p <= e <= n,
                    n == v@.len(),
                    forall|j: int| p <= j < e ==> !is_space_char(v@[j]),
                decreases n - e,
            {
                e = e + 1;
            }
            proof {
                lemma_first_ws(suffix);
                assert forall|j: int| 0 <= j < e - p implies !is_space_char(suffix[j]) by {
                    assert(suffix[j] == v@[p + j]);
                }
                if e < n {
                    assert(suffix[e - p] == v@[e as int]);
                }
                assert(first_ws(suffix) == e - p);
            }
            let mut field: Vec<char> = Vec::new();
            let mut j: usize = p;
            while j < e
                invariant
                    p <= j <= e <= n,
                    n == v@.len(),
                    field@ == v@.subrange(p as int, j as int),
                decreases e - j,
            {
                field.push(v[j]);
                j = j + 1;
                proof {
                    assert(field@ =~= v@.subrange(p as int, j as int));
                }
            }
            proof {
                assert(suffix.take(e - p) =~= v@.subrange(p as int, e as int));
                assert(field@ == suffix.take(e - p));
                assert(suffix.skip(e - p) =~= v@.subrange(e as int, n as int));
                assert(split_ws_spec(suffix) == seq![field@] + split_ws_spec(
                    v@.subrange(e as int, n as int),
                ));
            }
            r.push(field);
            p = e;
        }
        proof {
            assert(split_ws_spec(v@) =~= r@.map_values(|x: Vec<char>| x@) + split_ws_spec(
                v@.subrange(p as int, n as int),
            ));
        }
    }
    proof {
        assert(v@.subrange(p as int, n as int).len() == 0);
        assert(split_ws_spec(v@) =~= r@.map_values(|x: Vec<char>| x@));
        assert forall|j: int| 0 <= j < r@.len() implies #[trigger] r@[j]@ == split_ws_spec(
            v@,
        )[j] by {
            assert(split_ws_spec(v@)[j] == r@.map_values(|x: Vec<char>| x@)[j]);
        }
    }
    r
}

pub open spec fn is_digit_char(c: char) -> bool {
    0x30 <= c as u32 <= 0x39
}

pub open spec fn digit_val(c: char) -> nat {
    (c as u32 - 0x30) as nat
}

pub open spec fn digits_val(s: Seq<char>) -> nat
    decreases s.len(),
{
    if s.len() == 0 {
        0
    } else {
        digits_val(s.drop_last()) * 10 + digit_val(s.last())
    }
}

pub open spec fn all_digits(s: Seq<char>) -> bool {
    forall|i: int| 0 <= i < s.len() ==> is_digit_char(#[trigger] s[i])
}

/// The value of `s` read as an unsigned 64-bit decimal integer with an
/// optional leading `+`, when it has one.
pub open spec fn parse_u64_spec(s: Seq<char>) -> Option<u64> {
    let t = if s.len() > 0 && s[0] == '+' {
        s.drop_first()
    } else {
        s
    };
    if t.len() > 0 && all_digits(t) && digits_val(t) <= u64::MAX {
        Some(digits_val(t) as u64)
    } else {
        None
    }
}

proof fn lemma_digits_monotone(s: Seq<char>, j: int)
    requires
        0 <= j <= s.len(),
    ensures
        digits_val(s) >= digits_val(s.take(j)),
    decreases s.len(),
{
    if j < s.len() {
        lemma_digits_monotone(s.drop_last(), j);
        assert(s.drop_last().take(j) =~= s.take(j));
    } else {
        assert(s.take(j) =~= s);
    }
}

/// Parse a character vector as a `u64`, as the standard decimal parser
/// accepts it.
pub fn parse_u64_chars(v: &Vec<char>) -> (r: Option<u64>)
    ensures
        r == parse_u64_spec(v@),
{
    let n = v.len();
    let start: usize = if n > 0 && v[0] == '+' {
        1
    } else {
        0
    };
    let ghost t = if start == 1 {
        v@.drop_first()
    } else {
        v@
    };
    proof {
        assert(t.len() == n - start);
        assert(forall|j: int| 0 <= j < t.len() ==> t[j] == v@[start + j]);
    }
    if n == start {
        return None;
    }
    let mut acc: u64 = 0;
    let mut i: usize = start;
    while i < n
        invariant
            start <= i <= n,
            start < n,
            n == v@.len(),
            t == (if v@.len() > 0 && v@[0] == '+' {
                v@.drop_first()
            } else {
                v@
            }),
            t.len() == n - start,
            forall|j: int| 0 <= j < t.len() ==> t[j] == v@[start + j],
            acc == digits_val(t.take(i - start)),
            forall|j: int| 0 <= j < i - start ==> is_digit_char(#[trigger] t[j]),
        decreases n - i,
    {
        let c = v[i];
        let u = c as u32;
        if !(0x30 <= u && u <= 0x39) {
            proof {
                assert(t[i - start] == v@[i as int]);
                assert(!all_digits(t));
            }
            return None;
        }
        let d = (u - 0x30) as u64;
        let wide: u128 = (acc as u128) * 10 + (d as u128);
        proof {
            assert(t.take(i - start + 1).drop_last() =~= t.take(i - start));
            assert(t.take(i - start + 1).last() == t[i - start]);
            assert(t[i - start] == v@[i as int]);
            assert(digits_val(t.take(i - start + 1)) == digits_val(t.take(i - start)) * 10
                + digit_val(t[i - start]));
        }
        if wide > u64::MAX as u128 {
            proof {
                lemma_digits_monotone(t, i - start + 1);
                assert(digits_val(t) >= digits_val(t.take(i - start + 1)));
                assert(digits_val(t) > u64::MAX);
            }
            return None;
        }
        acc = wide as u64;
        i = i + 1;
    }
    proof {
        assert(t.take(t.len() as int) =~= t);
        assert(all_digits(t));
    }
    Some(acc)
}

} // verus!
