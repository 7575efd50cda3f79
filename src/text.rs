use vstd::prelude::*;

verus! {

/// Unicode `White_Space` characters, the set that `char::is_whitespace` tests for.
pub open spec fn is_ws(c: char) -> bool {
    ('\u{9}' <= c && c <= '\u{d}') || c == ' ' || c == '\u{85}' || c == '\u{a0}'
        || c == '\u{1680}' || ('\u{2000}' <= c && c <= '\u{200a}') || c == '\u{2028}'
        || c == '\u{2029}' || c == '\u{202f}' || c == '\u{205f}' || c == '\u{3000}'
}

/// Executable test for [`is_ws`].
pub fn is_whitespace_char(c: char) -> (r: bool)
    ensures
        r == is_ws(c),
{
    ('\u{9}' <= c && c <= '\u{d}') || c == ' ' || c == '\u{85}' || c == '\u{a0}'
        || c == '\u{1680}' || ('\u{2000}' <= c && c <= '\u{200a}') || c == '\u{2028}'
        || c == '\u{2029}' || c == '\u{202f}' || c == '\u{205f}' || c == '\u{3000}'
}


/// `s` without its leading whitespace.
pub open spec fn trim_start(s: Seq<char>) -> Seq<char>
    decreases s.len(),
{
    if s.len() > 0 && is_ws(s[0]) {
        trim_start(s.drop_first())
    } else {
        s
    }
}

/// `s` without its trailing whitespace.
pub open spec fn trim_end(s: Seq<char>) -> Seq<char>
    decreases s.len(),
{
    if s.len() > 0 && is_ws(s.last()) {
        trim_end(s.drop_last())
    } else {
        s
    }
}

/// `s` without leading and trailing whitespace, as `str::trim` gives it.
pub open spec fn trim(s: Seq<char>) -> Seq<char> {
    trim_end(trim_start(s))
}

/// The longest prefix of `s` that holds no whitespace.
pub open spec fn leading_word(s: Seq<char>) -> Seq<char>
    decreases s.len(),
{
    if s.len() == 0 || is_ws(s[0]) {
        Seq::empty()
    } else {
        seq![s[0]].add(leading_word(s.drop_first()))
    }
}

/// The first whitespace-separated token of `s`, if there is one.
pub open spec fn first_token(s: Seq<char>) -> Option<Seq<char>> {
    let t = trim_start(s);
    if t.len() == 0 {
        None
    } else {
        Some(leading_word(t))
    }
}

/// `s` with every occurrence of `pat` removed, scanning from the left and
/// never letting two occurrences overlap (what `str::replace(pat, "")` does).
pub open spec fn remove_all(s: Seq<char>, pat: Seq<char>) -> Seq<char>
    decreases s.len(),
{
    if s.len() == 0 {
        s
    } else if pat.len() > 0 && pat.len() <= s.len() && s.take(pat.len() as int) == pat {
        remove_all(s.skip(pat.len() as int), pat)
    } else {
        seq![s[0]].add(remove_all(s.skip(1), pat))
    }
}

/// The pieces of `s` between the characters equal to `sep`, in order; there is
/// always at least one piece (as with `str::split`).
pub open spec fn split_on(s: Seq<char>, sep: char) -> Seq<Seq<char>>
    decreases s.len(),
{
    if s.len() == 0 {
        seq![Seq::empty()]
    } else {
        let p = split_on(s.drop_last(), sep);
        if s.last() == sep {
            p.push(Seq::empty())
        } else {
            p.update(p.len() - 1, p.last().push(s.last()))
        }
    }
}

pub proof fn lemma_split_on_nonempty(s: Seq<char>, sep: char)
    ensures
        split_on(s, sep).len() >= 1,
    decreases s.len(),
{
    if s.len() > 0 {
        lemma_split_on_nonempty(s.drop_last(), sep);
    }
}

/// The characters of `s`, one per element.
pub fn chars_of(s: &str) -> (r: Vec<char>)
    ensures
        r@ == s@,
{
    let n = s.unicode_len();
    let mut r: Vec<char> = Vec::new();
    let mut i: usize = 0;
    while i < n
        invariant
            n == s@.len(),
            i <= n,
            r@ == s@.take(i as int),
        decreases n - i,
    {
        let c = s.get_char(i);
        r.push(c);
        i = i + 1;
        assert(r@ =~= s@.take(i as int));
    }
    assert(r@ =~= s@);
    r
}

/// Index of the first character at or after `from` that is not whitespace
/// (`s.len()` if there is none).
pub fn skip_whitespace(s: &Vec<char>, from: usize) -> (r: usize)
    requires
        from <= s.len(),
    ensures
        from <= r <= s.len(),
        trim_start(s@.subrange(from as int, s.len() as int)) == s@.subrange(r as int, s.len() as int),
{
    let mut i = from;
    while i < s.len() && is_whitespace_char(s[i])
        invariant
            from <= i <= s.len(),
            trim_start(s@.subrange(from as int, s.len() as int)) == trim_start(
                s@.subrange(i as int, s.len() as int),
            ),
        decreases s.len() - i,
    {
        assert(s@.subrange(i as int, s.len() as int).drop_first() =~= s@.subrange(
            i + 1,
            s.len() as int,
        ));
        i = i + 1;
    }
    i
}

/// End of the run of non-whitespace characters that starts at `from`.
pub fn word_end(s: &Vec<char>, from: usize) -> (r: usize)
    requires
        from <= s.len(),
    ensures
        from <= r <= s.len(),
        leading_word(s@.subrange(from as int, s.len() as int)) == s@.subrange(from as int, r as int),
{
    let mut i = from;
    while i < s.len() && !is_whitespace_char(s[i])
        invariant
            from <= i <= s.len(),
            leading_word(s@.subrange(from as int, s.len() as int)) == s@.subrange(
                from as int,
                i as int,
            ).add(leading_word(s@.subrange(i as int, s.len() as int))),
        decreases s.len() - i,
    {
        let ghost t = s@.subrange(i as int, s.len() as int);
        assert(t.drop_first() =~= s@.subrange(i + 1, s.len() as int));
        assert(s@.subrange(from as int, i as int).add(seq![t[0]]) =~= s@.subrange(
            from as int,
            i + 1,
        ));
        assert(s@.subrange(from as int, i as int).add(seq![t[0]].add(leading_word(t.drop_first())))
            =~= s@.subrange(from as int, i + 1).add(leading_word(t.drop_first())));
        i = i + 1;
    }
    assert(leading_word(s@.subrange(i as int, s.len() as int)) =~= Seq::<char>::empty());
    assert(s@.subrange(from as int, i as int).add(Seq::<char>::empty()) =~= s@.subrange(
        from as int,
        i as int,
    ));
    i
}

/// Bounds of `s[from..to]` once leading and trailing whitespace are dropped.
pub fn trim_bounds(s: &Vec<char>, from: usize, to: usize) -> (r: (usize, usize))
    requires
        from <= to <= s.len(),
    ensures
        from <= r.0 <= r.1 <= to,
        trim(s@.subrange(from as int, to as int)) == s@.subrange(r.0 as int, r.1 as int),
{
    let mut i = from;
    while i < to && is_whitespace_char(s[i])
        invariant
            from <= i <= to <= s.len(),
            trim_start(s@.subrange(from as int, to as int)) == trim_start(
                s@.subrange(i as int, to as int),
            ),
        decreases to - i,
    {
        assert(s@.subrange(i as int, to as int).drop_first() =~= s@.subrange(i + 1, to as int));
        i = i + 1;
    }
    let mut j = to;
    while j > i && is_whitespace_char(s[j - 1])
        invariant
            from <= i <= j <= to <= s.len(),
            trim(s@.subrange(from as int, to as int)) == trim_end(s@.subrange(i as int, j as int)),
        decreases j - i,
    {
        assert(s@.subrange(i as int, j as int).drop_last() =~= s@.subrange(i as int, j - 1));
        j = j - 1;
    }
    (i, j)
}

/// `s` with every occurrence of `pat` removed (see [`remove_all`]).
pub fn remove_pattern(s: &Vec<char>, pat: &Vec<char>) -> (r: Vec<char>)
    requires
        pat.len() > 0,
    ensures
        r@ == remove_all(s@, pat@),
{
    let mut r: Vec<char> = Vec::new();
    let mut i: usize = 0;
    let n = s.len();
    let m = pat.len();
    assert(s@.skip(0) =~= s@);
    assert(r@.add(remove_all(s@, pat@)) =~= remove_all(s@, pat@));
    while i < n
        invariant
            n == s.len(),
            m == pat.len(),
            m > 0,
            i <= n,
            r@.add(remove_all(s@.skip(i as int), pat@)) == remove_all(s@, pat@),
        decreases n - i,
    {
        let ghost t = s@.skip(i as int);
        let mut hit = m <= n - i;
        let mut k: usize = 0;
        while hit && k < m
            invariant
                m == pat.len(),
                i + m <= n ==> k <= m,
                n == s.len(),
                i < n,
                t == s@.skip(i as int),
                hit ==> i + m <= n && k <= m && forall|q: int|
                    0 <= q < k ==> s@[i + q] == pat@[q],
                !hit ==> !(m <= n - i && t.take(m as int) == pat@),
            decreases m - k + (if hit { 1int } else { 0int }),
        {
            if s[i + k] != pat[k] {
                hit = false;
                assert(t.take(m as int)[k as int] == s@[i + k]);
            } else {
                k = k + 1;
            }
        }
        if hit {
            assert(t.take(m as int) =~= pat@);
            assert(t.skip(m as int) =~= s@.skip(i + m));
            i = i + m;
        } else {
            r.push(s[i]);
            assert(t.skip(1) =~= s@.skip(i + 1));
            assert(r@.add(remove_all(s@.skip(i + 1), pat@)) =~= r@.drop_last().add(
                seq![s@[i as int]].add(remove_all(t.skip(1), pat@)),
            ));
            i = i + 1;
        }
    }
    assert(remove_all(s@.skip(n as int), pat@) =~= Seq::<char>::empty());
    assert(r@.add(Seq::<char>::empty()) =~= r@);
    r
}

} // verus!
