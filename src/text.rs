//! Character-level text handling: whitespace, trimming, sentence splitting
//! and whitespace normalisation.
use vstd::prelude::*;

verus! {

/// The Unicode `White_Space` property.
pub open spec fn white_space(c: char) -> bool {
    let u = c as u32;
    u == 0x20 || (0x09 <= u && u <= 0x0d) || u == 0x85 || u == 0xa0 || u == 0x1680 || (0x2000
        <= u && u <= 0x200a) || u == 0x2028 || u == 0x2029 || u == 0x202f || u == 0x205f || u
        == 0x3000
}

/// Sentence-terminal punctuation.
pub open spec fn terminal(c: char) -> bool {
    c == '.' || c == '!' || c == '?'
}

pub fn is_white_space(c: char) -> (r: bool)
    ensures
        r == white_space(c),
{
    let u = c as u32;
    u == 0x20 || (0x09 <= u && u <= 0x0d) || u == 0x85 || u == 0xa0 || u == 0x1680 || (0x2000
        <= u && u <= 0x200a) || u == 0x2028 || u == 0x2029 || u == 0x202f || u == 0x205f || u
        == 0x3000
}

pub open spec fn trim_start(s: Seq<char>) -> Seq<char>
    decreases s.len(),
{
    if s.len() > 0 && white_space(s[0]) {
        trim_start(s.drop_first())
    } else {
        s
    }
}

pub open spec fn trim_end(s: Seq<char>) -> Seq<char>
    decreases s.len(),
{
    if s.len() > 0 && white_space(s.last()) {
        trim_end(s.drop_last())
    } else {
        s
    }
}

/// `s` without leading and trailing whitespace.
pub open spec fn trimmed(s: Seq<char>) -> Seq<char> {
    trim_end(trim_start(s))
}

/// The pieces of `s` between separators: one more than there are separators,
/// empty pieces included.
pub open spec fn split_by(s: Seq<char>, sep: spec_fn(char) -> bool) -> Seq<Seq<char>>
    decreases s.len(),
{
    if s.len() == 0 {
        seq![Seq::empty()]
    } else {
        let p = split_by(s.drop_last(), sep);
        if sep(s.last()) {
            p.push(Seq::empty())
        } else {
            p.update(p.len() - 1, p.last().push(s.last()))
        }
    }
}

/// The trimmed pieces that are not empty, in order.
pub open spec fn kept_trimmed(ps: Seq<Seq<char>>) -> Seq<Seq<char>>
    decreases ps.len(),
{
    if ps.len() == 0 {
        seq![]
    } else {
        let k = kept_trimmed(ps.drop_last());
        if trimmed(ps.last()).len() > 0 {
            k.push(trimmed(ps.last()))
        } else {
            k
        }
    }
}

/// The sentences of a text: split on `.`, `!` and `?`, trimmed, empty ones dropped.
pub open spec fn sentences_of(s: Seq<char>) -> Seq<Seq<char>> {
    kept_trimmed(split_by(s, |c: char| terminal(c)))
}

/// The pieces that are not empty, in order.
pub open spec fn non_empty(ps: Seq<Seq<char>>) -> Seq<Seq<char>>
    decreases ps.len(),
{
    if ps.len() == 0 {
        seq![]
    } else {
        let k = non_empty(ps.drop_last());
        if ps.last().len() > 0 {
            k.push(ps.last())
        } else {
            k
        }
    }
}

/// The words joined by single spaces.
pub open spec fn join_spaced(ws: Seq<Seq<char>>) -> Seq<char>
    decreases ws.len(),
{
    if ws.len() == 0 {
        Seq::empty()
    } else if ws.len() == 1 {
        ws[0]
    } else {
        join_spaced(ws.drop_last()) + seq![' '] + ws.last()
    }
}

/// The whitespace-separated words of `s`.
pub open spec fn ws_words(s: Seq<char>) -> Seq<Seq<char>> {
    non_empty(split_by(s, |c: char| white_space(c)))
}

/// `s` with every run of whitespace made one space, and none at either end.
pub open spec fn collapsed(s: Seq<char>) -> Seq<char> {
    join_spaced(ws_words(s))
}

/// The character sequences that a list of character vectors holds.
pub open spec fn views(v: Seq<Vec<char>>) -> Seq<Seq<char>> {
    v.map_values(|x: Vec<char>| x@)
}

/// Copies `s[lo..hi]`.
pub fn copy_range(s: &Vec<char>, lo: usize, hi: usize) -> (r: Vec<char>)
    requires
        lo <= hi <= s.len(),
    ensures
        r@ == s@.subrange(lo as int, hi as int),
{
    let mut r: Vec<char> = Vec::new();
    let mut i: usize = lo;
    while i < hi
        invariant
            lo <= i <= hi <= s.len(),
            r@ == s@.subrange(lo as int, i as int),
        decreases hi - i,
    {
        r.push(s[i]);
        i = i + 1;
        assert(r@ =~= s@.subrange(lo as int, i as int));
    }
    r
}

/// `s[lo..hi]` without leading and trailing whitespace.
pub fn trim_range(s: &Vec<char>, lo: usize, hi: usize) -> (r: Vec<char>)
    requires
        lo <= hi <= s.len(),
    ensures
        r@ == trimmed(s@.subrange(lo as int, hi as int)),
{
    let ghost whole = s@.subrange(lo as int, hi as int);
    let mut a: usize = lo;
    while a < hi && is_white_space(s[a])
        invariant
            lo <= a <= hi <= s.len(),
            trim_start(whole) == trim_start(s@.subrange(a as int, hi as int)),
        decreases hi - a,
    {
        assert(s@.subrange(a as int, hi as int).drop_first() =~= s@.subrange(
            a + 1,
            hi as int,
        ));
        a = a + 1;
    }
    assert(trim_start(s@.subrange(a as int, hi as int)) == s@.subrange(a as int, hi as int));
    let mut b: usize = hi;
    while b > a && is_white_space(s[b - 1])
        invariant
            lo <= a <= b <= hi <= s.len(),
            trimmed(whole) == trim_end(s@.subrange(a as int, b as int)),
        decreases b - a,
    {
        assert(s@.subrange(a as int, b as int).drop_last() =~= s@.subrange(a as int, b - 1));
        b = b - 1;
    }
    copy_range(s, a, b)
}

/// Splits a text into its trimmed, non-empty sentences.
pub fn split_sentences(s: &Vec<char>) -> (r: Vec<Vec<char>>)
    ensures
        views(r@) == sentences_of(s@),
{
    let ghost sep = |c: char| terminal(c);
    let mut out: Vec<Vec<char>> = Vec::new();
    let mut start: usize = 0;
    let mut i: usize = 0;
    while i < s.len()
        invariant
            0 <= start <= i <= s.len(),
            sep == (|c: char| terminal(c)),
            split_by(s@.subrange(0, i as int), sep).len() >= 1,
            split_by(s@.subrange(0, i as int), sep).last() == s@.subrange(start as int, i as int),
            views(out@) == kept_trimmed(split_by(s@.subrange(0, i as int), sep).drop_last()),
        decreases s.len() - i,
    {
        let ghost p = split_by(s@.subrange(0, i as int), sep);
        let c = s[i];
        assert(s@.subrange(0, i + 1).drop_last() =~= s@.subrange(0, i as int));
        if c == '.' || c == '!' || c == '?' {
            let t = trim_range(s, start, i);
            assert(split_by(s@.subrange(0, i + 1), sep).drop_last() =~= p);
            let ghost before = out@;
            if t.len() > 0 {
                out.push(t);
                assert(views(out@) =~= views(before).push(t@));
            }
            start = i + 1;
            proof {
                assert(views(out@) =~= kept_trimmed(p));
            }
        } else {
            assert(split_by(s@.subrange(0, i + 1), sep).drop_last() =~= p.drop_last());
        }
        i = i + 1;
        assert(split_by(s@.subrange(0, i as int), sep).last() =~= s@.subrange(
            start as int,
            i as int,
        ));
    }
    let ghost p = split_by(s@.subrange(0, i as int), sep);
    assert(s@.subrange(0, i as int) =~= s@);
    let t = trim_range(s, start, i);
    let ghost before = out@;
    if t.len() > 0 {
        out.push(t);
        assert(views(out@) =~= views(before).push(t@));
    }
    assert(views(out@) =~= kept_trimmed(p));
    out
}

/// Appends `s[lo..hi]` to `out`.
pub fn append_range(out: &mut Vec<char>, s: &Vec<char>, lo: usize, hi: usize)
    requires
        lo <= hi <= s.len(),
    ensures
        final(out)@ == old(out)@ + s@.subrange(lo as int, hi as int),
{
    let ghost start = out@;
    let mut i: usize = lo;
    while i < hi
        invariant
            lo <= i <= hi <= s.len(),
            out@ == start + s@.subrange(lo as int, i as int),
        decreases hi - i,
    {
        out.push(s[i]);
        i = i + 1;
        assert(out@ =~= start + s@.subrange(lo as int, i as int));
    }
}

/// Makes every run of whitespace one space and drops it at both ends.
pub fn collapse_whitespace(s: &Vec<char>) -> (r: Vec<char>)
    ensures
        r@ == collapsed(s@),
{
    let ghost sep = |c: char| white_space(c);
    let mut out: Vec<char> = Vec::new();
    let mut start: usize = 0;
    let mut i: usize = 0;
    loop
        invariant
            0 <= start <= i <= s.len(),
            sep == (|c: char| white_space(c)),
            split_by(s@.subrange(0, i as int), sep).len() >= 1,
            split_by(s@.subrange(0, i as int), sep).last() == s@.subrange(start as int, i as int),
            out@ == join_spaced(non_empty(split_by(s@.subrange(0, i as int), sep).drop_last())),
            out@.len() == 0 <==> non_empty(
                split_by(s@.subrange(0, i as int), sep).drop_last(),
            ).len() == 0,
        decreases s.len() - i,
    {
        let ghost p = split_by(s@.subrange(0, i as int), sep);
        let ghost k = non_empty(p.drop_last());
        if i == s.len() || is_white_space(s[i]) {
            if start < i {
                if out.len() > 0 {
                    out.push(' ');
                }
                append_range(&mut out, s, start, i);
                assert(non_empty(p) == k.push(p.last()));
                assert(k.push(p.last()).drop_last() =~= k);
                assert(out@ =~= join_spaced(k.push(p.last())));
            }
            if i == s.len() {
                assert(s@.subrange(0, i as int) =~= s@);
                return out;
            }
            assert(s@.subrange(0, i + 1).drop_last() =~= s@.subrange(0, i as int));
            assert(split_by(s@.subrange(0, i + 1), sep).drop_last() =~= p);
            start = i + 1;
        } else {
            assert(s@.subrange(0, i + 1).drop_last() =~= s@.subrange(0, i as int));
            assert(split_by(s@.subrange(0, i + 1), sep).drop_last() =~= p.drop_last());
        }
        i = i + 1;
        assert(split_by(s@.subrange(0, i as int), sep).last() =~= s@.subrange(
            start as int,
            i as int,
        ));
    }
}

/// `s` with each `&nbsp;` entity, scanned from the left, made one space.
pub open spec fn nbsp_replaced(s: Seq<char>) -> Seq<char>
    decreases s.len(),
{
    if s.len() == 0 {
        s
    } else if s.len() >= 6 && s.subrange(0, 6) == seq!['&', 'n', 'b', 's', 'p', ';'] {
        seq![' '] + nbsp_replaced(s.subrange(6, s.len() as int))
    } else {
        seq![s[0]] + nbsp_replaced(s.drop_first())
    }
}

/// A context sentence made fit for display: `&nbsp;` entities become spaces
/// and whitespace is collapsed.
pub open spec fn cleaned(s: Seq<char>) -> Seq<char> {
    collapsed(nbsp_replaced(s))
}

fn starts_nbsp(s: &Vec<char>, i: usize) -> (r: bool)
    requires
        i <= s.len(),
    ensures
        r == (s@.len() - i >= 6 && s@.subrange(i as int, i + 6) == seq![
            '&',
            'n',
            'b',
            's',
            'p',
            ';',
        ]),
{
    let r = s.len() - i >= 6 && s[i] == '&' && s[i + 1] == 'n' && s[i + 2] == 'b' && s[i + 3]
        == 's' && s[i + 4] == 'p' && s[i + 5] == ';';
    if s.len() - i >= 6 {
        let ghost sub = s@.subrange(i as int, i + 6);
        if r {
            assert(sub =~= seq!['&', 'n', 'b', 's', 'p', ';']);
        } else {
            let ghost pat = seq!['&', 'n', 'b', 's', 'p', ';'];
            assert(sub != pat) by {
                if sub == pat {
                    assert(sub[0] == '&' && sub[1] == 'n' && sub[2] == 'b');
                    assert(sub[3] == 's' && sub[4] == 'p' && sub[5] == ';');
                }
            }
        }
    }
    r
}

/// Replaces each `&nbsp;` entity by a space.
pub fn replace_nbsp(s: &Vec<char>) -> (r: Vec<char>)
    ensures
        r@ == nbsp_replaced(s@),
{
    let mut out: Vec<char> = Vec::new();
    let mut i: usize = 0;
    assert(s@.subrange(0, s.len() as int) =~= s@);
    while i < s.len()
        invariant
            0 <= i <= s.len(),
            nbsp_replaced(s@) == out@ + nbsp_replaced(s@.subrange(i as int, s.len() as int)),
        decreases s.len() - i,
    {
        let ghost rest = s@.subrange(i as int, s.len() as int);
        if starts_nbsp(s, i) {
            assert(rest.subrange(0, 6) =~= s@.subrange(i as int, i + 6));
            assert(rest.subrange(6, rest.len() as int) =~= s@.subrange(i + 6, s.len() as int));
            out.push(' ');
            i = i + 6;
        } else {
            assert(rest.len() >= 6 ==> rest.subrange(0, 6) =~= s@.subrange(i as int, i + 6));
            assert(rest.drop_first() =~= s@.subrange(i + 1, s.len() as int));
            out.push(s[i]);
            i = i + 1;
        }
    }
    assert(s@.subrange(i as int, s.len() as int) =~= Seq::<char>::empty());
    assert(out@ =~= out@ + Seq::<char>::empty());
    out
}

/// A context made fit for display.
pub fn clean_context(s: &Vec<char>) -> (r: Vec<char>)
    ensures
        r@ == cleaned(s@),
{
    let t = replace_nbsp(s);
    collapse_whitespace(&t)
}

/// Splits `s` into its whitespace-separated words.
pub fn split_words(s: &Vec<char>) -> (r: Vec<Vec<char>>)
    ensures
        views(r@) == ws_words(s@),
{
    let ghost sep = |c: char| white_space(c);
    let mut out: Vec<Vec<char>> = Vec::new();
    let mut start: usize = 0;
    let mut i: usize = 0;
    loop
        invariant
            0 <= start <= i <= s.len(),
            sep == (|c: char| white_space(c)),
            split_by(s@.subrange(0, i as int), sep).len() >= 1,
            split_by(s@.subrange(0, i as int), sep).last() == s@.subrange(start as int, i as int),
            views(out@) == non_empty(split_by(s@.subrange(0, i as int), sep).drop_last()),
        decreases s.len() - i,
    {
        let ghost p = split_by(s@.subrange(0, i as int), sep);
        if i == s.len() || is_white_space(s[i]) {
            let ghost before = out@;
            if start < i {
                let w = copy_range(s, start, i);
                out.push(w);
                assert(views(out@) =~= views(before).push(p.last()));
            }
            assert(views(out@) =~= non_empty(p));
            if i == s.len() {
                assert(s@.subrange(0, i as int) =~= s@);
                return out;
            }
            assert(s@.subrange(0, i + 1).drop_last() =~= s@.subrange(0, i as int));
            assert(split_by(s@.subrange(0, i + 1), sep).drop_last() =~= p);
            start = i + 1;
        } else {
            assert(s@.subrange(0, i + 1).drop_last() =~= s@.subrange(0, i as int));
            assert(split_by(s@.subrange(0, i + 1), sep).drop_last() =~= p.drop_last());
        }
        i = i + 1;
        assert(split_by(s@.subrange(0, i as int), sep).last() =~= s@.subrange(
            start as int,
            i as int,
        ));
    }
}

} // verus!
