//! Verified text utilities: trimming, splitting, joining and unsigned
//! decimal parsing over `&str`, each proved equal to a spec-level model
//! on `Seq<char>`.

use vstd::prelude::*;

verus! {

/// The Unicode `White_Space` code points, the set `str::trim` removes.
pub open spec fn is_space_char(c: char) -> bool {
    c == '\u{9}' || c == '\u{a}' || c == '\u{b}' || c == '\u{c}' || c == '\u{d}'
        || c == ' ' || c == '\u{85}' || c == '\u{a0}' || c == '\u{1680}'
        || c == '\u{2000}' || c == '\u{2001}' || c == '\u{2002}' || c == '\u{2003}'
        || c == '\u{2004}' || c == '\u{2005}' || c == '\u{2006}' || c == '\u{2007}'
        || c == '\u{2008}' || c == '\u{2009}' || c == '\u{200a}' || c == '\u{2028}'
        || c == '\u{2029}' || c == '\u{202f}' || c == '\u{205f}' || c == '\u{3000}'
}

pub fn is_space(c: char) -> (r: bool)
    ensures
        r == is_space_char(c),
{
    c == '\u{9}' || c == '\u{a}' || c == '\u{b}' || c == '\u{c}' || c == '\u{d}'
        || c == ' ' || c == '\u{85}' || c == '\u{a0}' || c == '\u{1680}'
        || c == '\u{2000}' || c == '\u{2001}' || c == '\u{2002}' || c == '\u{2003}'
        || c == '\u{2004}' || c == '\u{2005}' || c == '\u{2006}' || c == '\u{2007}'
        || c == '\u{2008}' || c == '\u{2009}' || c == '\u{200a}' || c == '\u{2028}'
        || c == '\u{2029}' || c == '\u{202f}' || c == '\u{205f}' || c == '\u{3000}'
}

/// The characters removed from the ends of a string by the given predicate,
/// working from the front.
pub open spec fn drop_leading(s: Seq<char>, p: spec_fn(char) -> bool) -> Seq<char>
    decreases s.len(),
{
    if s.len() > 0 && p(s[0]) {
        drop_leading(s.drop_first(), p)
    } else {
        s
    }
}

/// Like [`drop_leading`], working from the back.
pub open spec fn drop_trailing(s: Seq<char>, p: spec_fn(char) -> bool) -> Seq<char>
    decreases s.len(),
{
    if s.len() > 0 && p(s.last()) {
        drop_trailing(s.drop_last(), p)
    } else {
        s
    }
}

pub open spec fn space_pred() -> spec_fn(char) -> bool {
    |c: char| is_space_char(c)
}

pub open spec fn colon_pred() -> spec_fn(char) -> bool {
    |c: char| c == ':'
}

/// What `str::trim` returns, as a sequence transformation.
pub open spec fn spec_trim(s: Seq<char>) -> Seq<char> {
    drop_trailing(drop_leading(s, space_pred()), space_pred())
}

/// What `str::trim_matches(':')` returns, as a sequence transformation.
pub open spec fn spec_trim_colons(s: Seq<char>) -> Seq<char> {
    drop_trailing(drop_leading(s, colon_pred()), colon_pred())
}

proof fn lemma_drop_leading_at(s: Seq<char>, p: spec_fn(char) -> bool, i: int)
    requires
        0 <= i <= s.len(),
        forall|k: int| 0 <= k < i ==> p(s[k]),
        i < s.len() ==> !p(s[i]),
    ensures
        drop_leading(s, p) == s.skip(i),
    decreases i,
{
    if i == 0 {
        assert(s.skip(0) =~= s);
    } else {
        assert(p(s[0]));
        lemma_drop_leading_at(s.drop_first(), p, i - 1);
        assert(s.drop_first().skip(i - 1) =~= s.skip(i));
    }
}

proof fn lemma_drop_trailing_at(s: Seq<char>, p: spec_fn(char) -> bool, j: int)
    requires
        0 <= j <= s.len(),
        forall|k: int| j <= k < s.len() ==> p(s[k]),
        j > 0 ==> !p(s[j - 1]),
    ensures
        drop_trailing(s, p) == s.take(j),
    decreases s.len() - j,
{
    if j == s.len() {
        assert(s.take(j) =~= s);
    } else {
        assert(p(s.last()));
        lemma_drop_trailing_at(s.drop_last(), p, j);
        assert(s.drop_last().take(j) =~= s.take(j));
    }
}

/// Trim leading and trailing whitespace, exactly as `str::trim` does.
pub fn trim(s: &str) -> (r: String)
    ensures
        r@ == spec_trim(s@),
{
    let n = s.unicode_len();
    let mut i: usize = 0;
    while i < n && is_space(s.get_char(i))
        invariant
            0 <= i <= n,
            n == s@.len(),
            forall|k: int| 0 <= k < i ==> is_space_char(s@[k]),
        decreases n - i,
    {
        i = i + 1;
    }
    let mut j: usize = n;
    while j > i && is_space(s.get_char(j - 1))
        invariant
            i <= j <= n,
            n == s@.len(),
            forall|k: int| j <= k < n ==> is_space_char(s@[k]),
        decreases j,
    {
        j = j - 1;
    }
    proof {
        lemma_drop_leading_at(s@, space_pred(), i as int);
        let t = s@.skip(i as int);
        lemma_drop_trailing_at(t, space_pred(), j - i);
        assert(t.take(j - i) =~= s@.subrange(i as int, j as int));
    }
    s.substring_char(i, j).to_owned()
}

/// Trim leading and trailing `':'` characters, as `str::trim_matches(':')`.
pub fn trim_colons(s: &str) -> (r: String)
    ensures
        r@ == spec_trim_colons(s@),
{
    let n = s.unicode_len();
    let mut i: usize = 0;
    while i < n && s.get_char(i) == ':'
        invariant
            0 <= i <= n,
            n == s@.len(),
            forall|k: int| 0 <= k < i ==> s@[k] == ':',
        decreases n - i,
    {
        i = i + 1;
    }
    let mut j: usize = n;
    while j > i && s.get_char(j - 1) == ':'
        invariant
            i <= j <= n,
            n == s@.len(),
            forall|k: int| j <= k < n ==> s@[k] == ':',
        decreases j,
    {
        j = j - 1;
    }
    proof {
        lemma_drop_leading_at(s@, colon_pred(), i as int);
        let t = s@.skip(i as int);
        lemma_drop_trailing_at(t, colon_pred(), j - i);
        assert(t.take(j - i) =~= s@.subrange(i as int, j as int));
    }
    s.substring_char(i, j).to_owned()
}

/// What `str::split(sep)` yields, in order. Splitting the empty string
/// yields one empty piece, and adjacent separators yield empty pieces,
/// exactly as `str::split` with a `char` pattern does.
pub open spec fn spec_split(s: Seq<char>, sep: char) -> Seq<Seq<char>>
    decreases s.len(),
{
    if s.len() == 0 {
        seq![Seq::<char>::empty()]
    } else if s[0] == sep {
        seq![Seq::<char>::empty()] + spec_split(s.drop_first(), sep)
    } else {
        let r = spec_split(s.drop_first(), sep);
        seq![seq![s[0]] + r.first()] + r.drop_first()
    }
}

/// What `str::splitn(n, sep)` yields: at most `n - 1` splits, counted from
/// the left; the remainder keeps any further separators.
pub open spec fn spec_splitn_from(s: Seq<char>, sep: char, left: nat) -> Seq<Seq<char>>
    decreases s.len(),
{
    if s.len() == 0 {
        seq![Seq::<char>::empty()]
    } else if s[0] == sep && left > 0 {
        seq![Seq::<char>::empty()] + spec_splitn_from(s.drop_first(), sep, (left - 1) as nat)
    } else {
        let r = spec_splitn_from(s.drop_first(), sep, left);
        seq![seq![s[0]] + r.first()] + r.drop_first()
    }
}

pub open spec fn spec_splitn(s: Seq<char>, sep: char, n: nat) -> Seq<Seq<char>> {
    if n == 0 {
        Seq::empty()
    } else {
        spec_splitn_from(s, sep, (n - 1) as nat)
    }
}

proof fn lemma_split_nonempty(s: Seq<char>, sep: char)
    ensures
        spec_split(s, sep).len() >= 1,
    decreases s.len(),
{
    if s.len() > 0 {
        lemma_split_nonempty(s.drop_first(), sep);
    }
}

proof fn lemma_splitn_from_nonempty(s: Seq<char>, sep: char, left: nat)
    ensures
        spec_splitn_from(s, sep, left).len() >= 1,
    decreases s.len(),
{
    if s.len() > 0 {
        if s[0] == sep && left > 0 {
            lemma_splitn_from_nonempty(s.drop_first(), sep, (left - 1) as nat);
        } else {
            lemma_splitn_from_nonempty(s.drop_first(), sep, left);
        }
    }
}

/// The first piece of `r` extended on the left with `x`.
spec fn prepend_first(x: Seq<char>, r: Seq<Seq<char>>) -> Seq<Seq<char>> {
    seq![x + r.first()] + r.drop_first()
}

/// Split on every occurrence of `sep`, exactly as `str::split(sep)`.
pub fn split_char(s: &str, sep: char) -> (parts: Vec<String>)
    ensures
        parts.deep_view() == spec_split(s@, sep),
{
    let n = s.unicode_len();
    let mut parts: Vec<String> = Vec::new();
    let mut st: usize = 0;
    let mut i: usize = 0;
    proof {
        lemma_split_nonempty(s@, sep);
        assert(s@.skip(0) =~= s@);
        let f = spec_split(s@, sep);
        assert(s@.subrange(0, 0) + f.first() =~= f.first());
        assert(parts.deep_view() + prepend_first(s@.subrange(0, 0), f) =~= f);
    }
    while i < n
        invariant
            0 <= st <= i <= n,
            n == s@.len(),
            spec_split(s@, sep) == parts.deep_view() + prepend_first(
                s@.subrange(st as int, i as int),
                spec_split(s@.skip(i as int), sep),
            ),
        decreases n - i,
    {
        let ghost f = spec_split(s@.skip(i as int), sep);
        let ghost fnext = spec_split(s@.skip(i as int + 1), sep);
        proof {
            assert(s@.skip(i as int)[0] == s@[i as int]);
            assert(s@.skip(i as int).drop_first() =~= s@.skip(i as int + 1));
            lemma_split_nonempty(s@.skip(i as int + 1), sep);
        }
        let c = s.get_char(i);
        if c == sep {
            let ghost pdv = parts.deep_view();
            let piece = s.substring_char(st, i);
            parts.push(piece.to_owned());
            proof {
                assert(f == seq![Seq::<char>::empty()] + fnext);
                assert(f.drop_first() =~= fnext);
                assert(parts.deep_view() =~= pdv.push(s@.subrange(st as int, i as int)));
                assert(s@.subrange(st as int, i as int) + f.first() =~= s@.subrange(
                    st as int,
                    i as int,
                ));
                assert(pdv + prepend_first(s@.subrange(st as int, i as int), f)
                    =~= parts.deep_view() + prepend_first(
                    s@.subrange(i as int + 1, i as int + 1),
                    fnext,
                ));
            }
            st = i + 1;
        } else {
            proof {
                assert(f == seq![seq![s@[i as int]] + fnext.first()] + fnext.drop_first());
                assert(s@.subrange(st as int, i as int + 1) =~= s@.subrange(st as int, i as int)
                    + seq![s@[i as int]]);
                assert(s@.subrange(st as int, i as int) + f.first() =~= s@.subrange(
                    st as int,
                    i as int + 1,
                ) + fnext.first());
                assert(parts.deep_view() + prepend_first(s@.subrange(st as int, i as int), f)
                    =~= parts.deep_view() + prepend_first(
                    s@.subrange(st as int, i as int + 1),
                    fnext,
                ));
            }
        }
        i = i + 1;
    }
    let ghost pdv = parts.deep_view();
    let last = s.substring_char(st, n);
    parts.push(last.to_owned());
    proof {
        assert(s@.skip(n as int) =~= Seq::<char>::empty());
        let f = spec_split(s@.skip(n as int), sep);
        assert(f == seq![Seq::<char>::empty()]);
        assert(s@.subrange(st as int, n as int) + f.first() =~= s@.subrange(st as int, n as int));
        assert(parts.deep_view() =~= pdv.push(s@.subrange(st as int, n as int)));
        assert(parts.deep_view() =~= pdv + prepend_first(s@.subrange(st as int, n as int), f));
    }
    parts
}

/// Split on `sep` into at most three pieces, as `str::splitn(3, sep)`.
pub fn splitn3(s: &str, sep: char) -> (parts: Vec<String>)
    ensures
        parts.deep_view() == spec_splitn(s@, sep, 3),
{
    let n = s.unicode_len();
    let mut parts: Vec<String> = Vec::new();
    let mut st: usize = 0;
    let mut i: usize = 0;
    let mut left: usize = 2;
    proof {
        lemma_splitn_from_nonempty(s@, sep, 2);
        assert(s@.skip(0) =~= s@);
        let f = spec_splitn_from(s@, sep, 2);
        assert(s@.subrange(0, 0) + f.first() =~= f.first());
        assert(parts.deep_view() + prepend_first(s@.subrange(0, 0), f) =~= f);
    }
    while i < n
        invariant
            0 <= st <= i <= n,
            n == s@.len(),
            spec_splitn(s@, sep, 3) == parts.deep_view() + prepend_first(
                s@.subrange(st as int, i as int),
                spec_splitn_from(s@.skip(i as int), sep, left as nat),
            ),
        decreases n - i,
    {
        let ghost f = spec_splitn_from(s@.skip(i as int), sep, left as nat);
        proof {
            assert(s@.skip(i as int)[0] == s@[i as int]);
            assert(s@.skip(i as int).drop_first() =~= s@.skip(i as int + 1));
        }
        let c = s.get_char(i);
        if c == sep && left > 0 {
            let ghost fnext = spec_splitn_from(s@.skip(i as int + 1), sep, (left - 1) as nat);
            proof {
                lemma_splitn_from_nonempty(s@.skip(i as int + 1), sep, (left - 1) as nat);
            }
            let ghost pdv = parts.deep_view();
            let piece = s.substring_char(st, i);
            parts.push(piece.to_owned());
            proof {
                assert(f == seq![Seq::<char>::empty()] + fnext);
                assert(f.drop_first() =~= fnext);
                assert(parts.deep_view() =~= pdv.push(s@.subrange(st as int, i as int)));
                assert(s@.subrange(st as int, i as int) + f.first() =~= s@.subrange(
                    st as int,
                    i as int,
                ));
                assert(pdv + prepend_first(s@.subrange(st as int, i as int), f)
                    =~= parts.deep_view() + prepend_first(
                    s@.subrange(i as int + 1, i as int + 1),
                    fnext,
                ));
            }
            st = i + 1;
            left = left - 1;
        } else {
            let ghost fnext = spec_splitn_from(s@.skip(i as int + 1), sep, left as nat);
            proof {
                lemma_splitn_from_nonempty(s@.skip(i as int + 1), sep, left as nat);
                assert(f == seq![seq![s@[i as int]] + fnext.first()] + fnext.drop_first());
                assert(s@.subrange(st as int, i as int + 1) =~= s@.subrange(st as int, i as int)
                    + seq![s@[i as int]]);
                assert(s@.subrange(st as int, i as int) + f.first() =~= s@.subrange(
                    st as int,
                    i as int + 1,
                ) + fnext.first());
                assert(parts.deep_view() + prepend_first(s@.subrange(st as int, i as int), f)
                    =~= parts.deep_view() + prepend_first(
                    s@.subrange(st as int, i as int + 1),
                    fnext,
                ));
            }
        }
        i = i + 1;
    }
    let ghost pdv = parts.deep_view();
    let last = s.substring_char(st, n);
    parts.push(last.to_owned());
    proof {
        assert(s@.skip(n as int) =~= Seq::<char>::empty());
        let f = spec_splitn_from(s@.skip(n as int), sep, left as nat);
        assert(f == seq![Seq::<char>::empty()]);
        assert(s@.subrange(st as int, n as int) + f.first() =~= s@.subrange(st as int, n as int));
        assert(parts.deep_view() =~= pdv.push(s@.subrange(st as int, n as int)));
        assert(parts.deep_view() =~= pdv + prepend_first(s@.subrange(st as int, n as int), f));
    }
    parts
}

/// The pieces joined with `sep` between consecutive pieces, as
/// `[String]::join` with a one-character separator.
pub open spec fn spec_join(parts: Seq<Seq<char>>, sep: char) -> Seq<char>
    decreases parts.len(),
{
    if parts.len() == 0 {
        Seq::empty()
    } else if parts.len() == 1 {
        parts[0]
    } else {
        parts[0] + seq![sep] + spec_join(parts.drop_first(), sep)
    }
}

proof fn lemma_join_snoc(parts: Seq<Seq<char>>, x: Seq<char>, sep: char)
    ensures
        parts.len() == 0 ==> spec_join(parts.push(x), sep) == x,
        parts.len() > 0 ==> spec_join(parts.push(x), sep) == spec_join(parts, sep) + seq![sep] + x,
    decreases parts.len(),
{
    if parts.len() == 0 {
        assert(spec_join(parts.push(x), sep) == parts.push(x)[0]);
    } else {
        assert(parts.push(x).drop_first() =~= parts.drop_first().push(x));
        lemma_join_snoc(parts.drop_first(), x, sep);
        if parts.len() == 1 {
            assert(parts.push(x)[0] == parts[0]);
        } else {
            assert(parts[0] + seq![sep] + (spec_join(parts.drop_first(), sep) + seq![sep] + x)
                =~= (parts[0] + seq![sep] + spec_join(parts.drop_first(), sep)) + seq![sep] + x);
        }
    }
}

/// Join the pieces from index `from` on with single spaces.
pub fn join_from(parts: &Vec<String>, from: usize) -> (r: String)
    requires
        from <= parts@.len(),
    ensures
        r@ == spec_join(parts.deep_view().skip(from as int), ' '),
{
    let mut r = String::new();
    let mut i: usize = from;
    while i < parts.len()
        invariant
            from <= i <= parts@.len(),
            r@ == spec_join(parts.deep_view().subrange(from as int, i as int), ' '),
        decreases parts@.len() - i,
    {
        let ghost pre = parts.deep_view().subrange(from as int, i as int);
        if i > from {
            r.append(" ");
        }
        r.append(parts[i].as_str());
        proof {
            reveal_strlit(" ");
            assert(" "@ =~= seq![' ']);
            assert(parts.deep_view().subrange(from as int, i as int + 1) =~= pre.push(
                parts.deep_view()[i as int],
            ));
            lemma_join_snoc(pre, parts.deep_view()[i as int], ' ');
        }
        i = i + 1;
    }
    proof {
        assert(parts.deep_view().subrange(from as int, parts.deep_view().len() as int)
            =~= parts.deep_view().skip(from as int));
    }
    r
}

/// An ASCII decimal digit.
pub open spec fn is_digit_char(c: char) -> bool {
    48 <= c as u32 <= 57
}

pub open spec fn digit_val(c: char) -> int {
    c as u32 - 48
}

pub open spec fn all_digits(s: Seq<char>) -> bool {
    forall|k: int| 0 <= k < s.len() ==> is_digit_char(s[k])
}

/// The value of a sequence of decimal digits, most significant first.
pub open spec fn digits_val(s: Seq<char>) -> int
    decreases s.len(),
{
    if s.len() == 0 {
        0
    } else {
        digits_val(s.drop_last()) * 10 + digit_val(s.last())
    }
}

proof fn lemma_digits_nonneg(s: Seq<char>)
    requires
        all_digits(s),
    ensures
        digits_val(s) >= 0,
    decreases s.len(),
{
    if s.len() > 0 {
        lemma_digits_nonneg(s.drop_last());
    }
}

proof fn lemma_digits_prefix_leq(s: Seq<char>, m: int)
    requires
        all_digits(s),
        0 <= m <= s.len(),
    ensures
        digits_val(s.take(m)) <= digits_val(s),
    decreases s.len() - m,
{
    if m == s.len() {
        assert(s.take(m) =~= s);
    } else {
        assert(s.take(m + 1).drop_last() =~= s.take(m));
        assert(s.take(m + 1).last() == s[m]);
        assert(all_digits(s.take(m))) by {
            assert(forall|k: int| 0 <= k < m ==> s.take(m)[k] == s[k]);
        }
        lemma_digits_nonneg(s.take(m));
        lemma_digits_prefix_leq(s, m + 1);
    }
}

/// What `str::parse::<u32>` accepts: an optional leading `'+'`, then at
/// least one ASCII digit, with a value that fits in `u32`.
pub open spec fn spec_parse_u32(s: Seq<char>) -> Option<u32> {
    let t = if s.len() > 0 && s[0] == '+' {
        s.drop_first()
    } else {
        s
    };
    if t.len() > 0 && all_digits(t) && digits_val(t) <= u32::MAX {
        Some(digits_val(t) as u32)
    } else {
        None
    }
}

/// Parse an unsigned decimal integer, exactly as `str::parse::<u32>`
/// succeeds or fails.
pub fn parse_u32(s: &str) -> (r: Option<u32>)
    ensures
        r == spec_parse_u32(s@),
{
    let n = s.unicode_len();
    let start: usize = if n > 0 && s.get_char(0) == '+' {
        1
    } else {
        0
    };
    let ghost t = if s@.len() > 0 && s@[0] == '+' {
        s@.drop_first()
    } else {
        s@
    };
    proof {
        assert(s@.drop_first() =~= s@.skip(1));
        assert(s@.skip(0) =~= s@);
        assert(t =~= s@.skip(start as int));
    }
    if start == n {
        proof {
            assert(t.len() == 0);
        }
        return None;
    }
    let mut acc: u64 = 0;
    let mut i: usize = start;
    while i < n
        invariant
            start <= i <= n,
            n == s@.len(),
            start < n,
            t == s@.skip(start as int),
            t == (if s@.len() > 0 && s@[0] == '+' {
                s@.drop_first()
            } else {
                s@
            }),
            forall|k: int| start <= k < i ==> is_digit_char(s@[k]),
            acc as int == digits_val(s@.subrange(start as int, i as int)),
            acc <= u32::MAX as u64,
        decreases n - i,
    {
        let c = s.get_char(i);
        let u = c as u32;
        if u < 48 || u > 57 {
            proof {
                assert(t[i - start] == s@[i as int]);
                assert(!is_digit_char(t[i - start]));
                assert(!all_digits(t));
            }
            return None;
        }
        let d = (u - 48) as u64;
        let next = acc * 10 + d;
        proof {
            assert(s@.subrange(start as int, i as int + 1).drop_last() =~= s@.subrange(
                start as int,
                i as int,
            ));
            assert(s@.subrange(start as int, i as int + 1).last() == s@[i as int]);
        }
        if next > u32::MAX as u64 {
            proof {
                assert(digits_val(s@.subrange(start as int, i as int + 1)) == next);
                if all_digits(t) {
                    assert(t.take(i + 1 - start) =~= s@.subrange(start as int, i as int + 1));
                    lemma_digits_prefix_leq(t, i + 1 - start);
                    assert(digits_val(t) > u32::MAX);
                }
                assert(spec_parse_u32(s@) is None);
            }
            return None;
        }
        acc = next;
        i = i + 1;
    }
    proof {
        assert(t =~= s@.subrange(start as int, n as int));
        assert(forall|k: int| 0 <= k < t.len() ==> t[k] == s@[k + start]);
    }
    Some(acc as u32)
}

/// Character-wise string equality.
pub fn str_eq(a: &str, b: &str) -> (r: bool)
    ensures
        r == (a@ == b@),
{
    let n = a.unicode_len();
    let m = b.unicode_len();
    if n != m {
        return false;
    }
    let mut i: usize = 0;
    while i < n
        invariant
            0 <= i <= n,
            n == a@.len(),
            n == b@.len(),
            forall|k: int| 0 <= k < i ==> a@[k] == b@[k],
        decreases n - i,
    {
        if a.get_char(i) != b.get_char(i) {
            return false;
        }
        i = i + 1;
    }
    proof {
        assert(a@ =~= b@);
    }
    true
}

} // verus!
