//! Character-level text handling: whitespace, trimming, splitting and decimal numbers.

use vstd::prelude::*;

verus! {

/// Whether `c` has the Unicode `White_Space` property.
pub open spec fn is_ws(c: char) -> bool {
    ('\u{9}' <= c && c <= '\u{D}') || c == ' ' || c == '\u{85}' || c == '\u{A0}' || c == '\u{1680}'
        || ('\u{2000}' <= c && c <= '\u{200A}') || c == '\u{2028}' || c == '\u{2029}' || c
        == '\u{202F}' || c == '\u{205F}' || c == '\u{3000}'
}

/// Whether `c` has the Unicode `White_Space` property.
pub fn is_whitespace(c: char) -> (res: bool)
    ensures
        res == is_ws(c),
{
    ('\u{9}' <= c && c <= '\u{D}') || c == ' ' || c == '\u{85}' || c == '\u{A0}' || c == '\u{1680}'
        || ('\u{2000}' <= c && c <= '\u{200A}') || c == '\u{2028}' || c == '\u{2029}' || c
        == '\u{202F}' || c == '\u{205F}' || c == '\u{3000}'
}

/// `s` without its leading whitespace.
pub open spec fn trim_start(s: Seq<char>) -> Seq<char>
    decreases s.len(),
{
    if s.len() > 0 && is_ws(s[0]) {
        trim_start(s.drop_first())
    } else {
        s
    }
}

/// `s` without its trailing whitespace.
pub open spec fn trim_end(s: Seq<char>) -> Seq<char>
    decreases s.len(),
{
    if s.len() > 0 && is_ws(s.last()) {
        trim_end(s.drop_last())
    } else {
        s
    }
}

/// `s` without leading and trailing whitespace.
pub open spec fn trim(s: Seq<char>) -> Seq<char> {
    trim_end(trim_start(s))
}

/// The pieces of `s` between occurrences of `sep`, at most `n` of them: once `n` pieces
/// exist, the last one takes the rest of the text.
pub open spec fn pieces(s: Seq<char>, sep: char, n: int) -> Seq<Seq<char>>
    decreases s.len(),
{
    if s.len() == 0 {
        seq![Seq::<char>::empty()]
    } else {
        let ps = pieces(s.drop_last(), sep, n);
        if s.last() == sep && ps.len() < n {
            ps.push(Seq::<char>::empty())
        } else {
            ps.update(ps.len() - 1, ps.last().push(s.last()))
        }
    }
}

/// The pieces of `s` between all occurrences of `sep`.
pub open spec fn split_all(s: Seq<char>, sep: char) -> Seq<Seq<char>> {
    pieces(s, sep, s.len() as int + 1)
}

/// The maximal runs of non-whitespace characters of `s`, in order.
pub open spec fn words(s: Seq<char>) -> Seq<Seq<char>>
    decreases s.len(),
{
    if s.len() == 0 {
        Seq::<Seq<char>>::empty()
    } else {
        let ws = words(s.drop_last());
        if is_ws(s.last()) {
            ws
        } else if s.len() >= 2 && !is_ws(s[s.len() - 2]) {
            ws.update(ws.len() - 1, ws.last().push(s.last()))
        } else {
            ws.push(seq![s.last()])
        }
    }
}

/// The value of a sequence of decimal digits.
pub open spec fn digits_value(d: Seq<char>) -> int
    decreases d.len(),
{
    if d.len() == 0 {
        0
    } else {
        digits_value(d.drop_last()) * 10 + (d.last() as int - '0' as int)
    }
}

/// Whether every character of `d` is a decimal digit.
pub open spec fn all_digits(d: Seq<char>) -> bool {
    forall|i: int| 0 <= i < d.len() ==> '0' <= #[trigger] d[i] && d[i] <= '9'
}

/// The decimal number `s` denotes, with an optional leading `+`, if it fits in 16 bits.
pub open spec fn parse_u16_spec(s: Seq<char>) -> Option<u16> {
    let d = if s.len() > 0 && s[0] == '+' {
        s.drop_first()
    } else {
        s
    };
    if d.len() > 0 && all_digits(d) && digits_value(d) <= 65535 {
        Some(digits_value(d) as u16)
    } else {
        None
    }
}

/// The characters of `s`, in order.
pub fn chars_of(s: &str) -> (res: Vec<char>)
    ensures
        res@ == s@,
{
    let mut res: Vec<char> = Vec::new();
    for c in it: s.chars()
        invariant
            res@ == it.seq().take(it.index() as int),
            it.seq() == s@,
    {
        res.push(c);
    }
    res
}

/// `s` without leading and trailing whitespace.
pub fn trim_str(s: &str) -> (res: &str)
    ensures
        res@ == trim(s@),
{
    let cs = chars_of(s);
    let n = cs.len();
    let mut a: usize = 0;
    assert(s@.subrange(0, n as int) =~= s@);
    while a < n && is_whitespace(cs[a])
        invariant
            a <= n,
            n == s@.len(),
            cs@ == s@,
            trim_start(s@) == trim_start(s@.subrange(a as int, n as int)),
        decreases n - a,
    {
        assert(s@.subrange(a as int, n as int).drop_first() =~= s@.subrange(a + 1, n as int));
        a = a + 1;
    }
    assert(trim_start(s@) == s@.subrange(a as int, n as int));
    let mut b: usize = n;
    while b > a && is_whitespace(cs[b - 1])
        invariant
            a <= b <= n,
            n == s@.len(),
            cs@ == s@,
            trim(s@) == trim_end(s@.subrange(a as int, b as int)),
        decreases b - a,
    {
        assert(s@.subrange(a as int, b as int).drop_last() =~= s@.subrange(a as int, b - 1));
        b = b - 1;
    }
    s.substring_char(a, b)
}

/// The texts held by a vector of string slices.
pub open spec fn str_views(v: Seq<&str>) -> Seq<Seq<char>> {
    v.map_values(|x: &str| x@)
}

/// The texts held by a vector of strings.
pub open spec fn string_views(v: Seq<String>) -> Seq<Seq<char>> {
    v.map_values(|x: String| x@)
}

fn split_impl<'a>(s: &'a str, sep: char, limit: usize, unlimited: bool) -> (res: Vec<&'a str>)
    requires
        limit >= 1,
    ensures
        str_views(res@) == pieces(
            s@,
            sep,
            if unlimited {
                s@.len() as int + 1
            } else {
                limit as int
            },
        ),
{
    let ghost lim: int = if unlimited {
        s@.len() as int + 1
    } else {
        limit as int
    };
    let cs = chars_of(s);
    let n = cs.len();
    let mut out: Vec<&'a str> = Vec::new();
    let mut start: usize = 0;
    let mut k: usize = 0;
    assert(s@.take(0) =~= Seq::<char>::empty());
    assert(str_views(out@).push(s@.subrange(0, 0)) =~= seq![Seq::<char>::empty()]);
    while k < n
        invariant
            n == s@.len(),
            cs@ == s@,
            limit >= 1,
            lim == if unlimited {
                s@.len() as int + 1
            } else {
                limit as int
            },
            start <= k <= n,
            out@.len() <= k,
            pieces(s@.take(k as int), sep, lim) == str_views(out@).push(
                s@.subrange(start as int, k as int),
            ),
        decreases n - k,
    {
        let c = cs[k];
        let ghost ps = pieces(s@.take(k as int), sep, lim);
        assert(s@.take(k + 1).drop_last() =~= s@.take(k as int));
        assert(s@.take(k + 1).last() == c);
        if c == sep && (unlimited || out.len() + 1 < limit) {
            let piece = s.substring_char(start, k);
            out.push(piece);
            assert(str_views(out@) =~= ps);
            start = k + 1;
            assert(pieces(s@.take(k + 1), sep, lim) == ps.push(Seq::<char>::empty()));
            assert(s@.subrange(start as int, k + 1) =~= Seq::<char>::empty());
            assert(str_views(out@).push(s@.subrange(start as int, k + 1)) =~= ps.push(
                Seq::<char>::empty(),
            ));
        } else {
            assert(s@.subrange(start as int, k + 1) =~= s@.subrange(start as int, k as int).push(c));
            assert(str_views(out@).push(s@.subrange(start as int, k + 1)) =~= ps.update(
                ps.len() - 1,
                ps.last().push(c),
            ));
        }
        k = k + 1;
    }
    let piece = s.substring_char(start, n);
    out.push(piece);
    assert(s@.take(n as int) =~= s@);
    assert(str_views(out@) =~= pieces(s@, sep, lim));
    out
}

/// The pieces of `s` between occurrences of `sep`, at most `limit` of them (none when
/// `limit` is 0).
pub fn split_limited<'a>(s: &'a str, sep: char, limit: usize) -> (res: Vec<&'a str>)
    ensures
        limit == 0 ==> res@.len() == 0,
        limit > 0 ==> str_views(res@) == pieces(s@, sep, limit as int),
{
    if limit == 0 {
        return Vec::new();
    }
    split_impl(s, sep, limit, false)
}

/// The pieces of `s` between all occurrences of `sep`.
pub fn split_on<'a>(s: &'a str, sep: char) -> (res: Vec<&'a str>)
    ensures
        str_views(res@) == split_all(s@, sep),
{
    split_impl(s, sep, 1, true)
}

/// The whitespace-separated words of `s`, in order.
pub fn words_of(s: &str) -> (res: Vec<String>)
    ensures
        string_views(res@) == words(s@),
{
    let cs = chars_of(s);
    let n = cs.len();
    let mut out: Vec<String> = Vec::new();
    let mut start: usize = 0;
    let mut in_word = false;
    let mut k: usize = 0;
    assert(s@.take(0) =~= Seq::<char>::empty());
    assert(string_views(out@) =~= Seq::<Seq<char>>::empty());
    while k < n
        invariant
            n == s@.len(),
            cs@ == s@,
            start <= k <= n,
            in_word == (k > 0 && !is_ws(s@[k - 1])),
            in_word ==> start < k,
            words(s@.take(k as int)) == if in_word {
                string_views(out@).push(s@.subrange(start as int, k as int))
            } else {
                string_views(out@)
            },
        decreases n - k,
    {
        let c = cs[k];
        let ghost ws = words(s@.take(k as int));
        let ghost pre = s@.take(k + 1);
        assert(pre.drop_last() =~= s@.take(k as int));
        assert(pre.last() == c);
        if is_whitespace(c) {
            if in_word {
                let w = s.substring_char(start, k).to_owned();
                out.push(w);
                assert(string_views(out@) =~= ws);
            }
            in_word = false;
        } else {
            if in_word {
                assert(pre[pre.len() - 2] == s@[k - 1]);
                assert(s@.subrange(start as int, k + 1) =~= s@.subrange(start as int, k as int).push(c));
                assert(string_views(out@).push(s@.subrange(start as int, k + 1)) =~= ws.update(
                    ws.len() - 1,
                    ws.last().push(c),
                ));
            } else {
                if k > 0 {
                    assert(pre[pre.len() - 2] == s@[k - 1]);
                }
                start = k;
                assert(s@.subrange(start as int, k + 1) =~= seq![c]);
            }
            in_word = true;
        }
        k = k + 1;
    }
    assert(s@.take(n as int) =~= s@);
    if in_word {
        let w = s.substring_char(start, n).to_owned();
        out.push(w);
    }
    assert(string_views(out@) =~= words(s@));
    out
}

/// A string of digits has a non-negative value.
pub proof fn lemma_digits_value_nonneg(d: Seq<char>)
    requires
        all_digits(d),
    ensures
        digits_value(d) >= 0,
    decreases d.len(),
{
    if d.len() > 0 {
        assert(all_digits(d.drop_last())) by {
            assert forall|i: int| 0 <= i < d.drop_last().len() implies '0' <= #[trigger] d.drop_last()[i]
                && d.drop_last()[i] <= '9' by {
                assert(d.drop_last()[i] == d[i]);
            }
        }
        lemma_digits_value_nonneg(d.drop_last());
        assert('0' <= d[d.len() - 1]);
    }
}

/// A prefix of a string of digits has no larger value than the whole.
pub proof fn lemma_digits_value_prefix(d: Seq<char>, m: int)
    requires
        all_digits(d),
        0 <= m <= d.len(),
    ensures
        digits_value(d.take(m)) <= digits_value(d),
    decreases d.len(),
{
    if m == d.len() {
        assert(d.take(m) =~= d);
    } else {
        let dl = d.drop_last();
        assert(all_digits(dl)) by {
            assert forall|i: int| 0 <= i < dl.len() implies '0' <= #[trigger] dl[i] && dl[i] <= '9' by {
                assert(dl[i] == d[i]);
            }
        }
        lemma_digits_value_prefix(dl, m);
        assert(dl.take(m) =~= d.take(m));
        lemma_digits_value_nonneg(dl);
        assert('0' <= d[d.len() - 1]);
    }
}

/// The decimal number `s` denotes, with an optional leading `+`, if it fits in 16 bits.
pub fn parse_u16(s: &str) -> (res: Option<u16>)
    ensures
        res == parse_u16_spec(s@),
{
    let cs = chars_of(s);
    let n = cs.len();
    let i0: usize = if n > 0 && cs[0] == '+' {
        1
    } else {
        0
    };
    let ghost d = s@.subrange(i0 as int, n as int);
    assert(d == if s@.len() > 0 && s@[0] == '+' {
        s@.drop_first()
    } else {
        s@
    });
    if i0 == n {
        return None;
    }
    let mut acc: u32 = 0;
    let mut i: usize = i0;
    assert(d.take(0) =~= Seq::<char>::empty());
    while i < n
        invariant
            i0 <= i <= n,
            n == s@.len(),
            cs@ == s@,
            d == s@.subrange(i0 as int, n as int),
            d == if s@.len() > 0 && s@[0] == '+' {
                s@.drop_first()
            } else {
                s@
            },
            d.len() > 0,
            all_digits(d.take(i - i0)),
            acc as int == digits_value(d.take(i - i0)),
            acc <= 65535,
        decreases n - i,
    {
        let c = cs[i];
        assert(d[i - i0] == c);
        if !('0' <= c && c <= '9') {
            assert(!all_digits(d));
            return None;
        }
        let digit = (c as u32) - ('0' as u32);
        acc = acc * 10 + digit;
        let ghost t = d.take(i - i0 + 1);
        assert(t.drop_last() =~= d.take(i - i0));
        assert(all_digits(t)) by {
            assert forall|j: int| 0 <= j < t.len() implies '0' <= #[trigger] t[j] && t[j] <= '9' by {
                if j < t.len() - 1 {
                    assert(t[j] == d.take(i - i0)[j]);
                }
            }
        }
        if acc > 65535 {
            proof {
                if all_digits(d) {
                    lemma_digits_value_prefix(d, i - i0 + 1);
                }
            }
            return None;
        }
        i = i + 1;
    }
    assert(d.take(n - i0) =~= d);
    Some(acc as u16)
}

} // verus!
