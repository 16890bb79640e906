//! Character-level helpers shared by the parser and the emitters.
use vstd::prelude::*;

verus! {

/// Unicode `White_Space`: the characters that `char::is_whitespace` accepts.
pub open spec fn is_ws(c: char) -> bool {
    let u = c as u32;
    ||| 0x09 <= u <= 0x0D
    ||| u == 0x20
    ||| u == 0x85
    ||| u == 0xA0
    ||| u == 0x1680
    ||| 0x2000 <= u <= 0x200A
    ||| u == 0x2028
    ||| u == 0x2029
    ||| u == 0x202F
    ||| u == 0x205F
    ||| u == 0x3000
}

/// Whether `c` is a Unicode white-space character.
pub fn is_whitespace(c: char) -> (b: bool)
    ensures
        b == is_ws(c),
{
    let u = c as u32;
    (0x09 <= u && u <= 0x0D) || u == 0x20 || u == 0x85 || u == 0xA0 || u == 0x1680 || (0x2000
        <= u && u <= 0x200A) || u == 0x2028 || u == 0x2029 || u == 0x202F || u == 0x205F || u
        == 0x3000
}

/// The views of a sequence of strings.
pub open spec fn strs_view(v: Seq<String>) -> Seq<Seq<char>> {
    v.map_values(|s: String| s@)
}

/// Append `c` to `s`.
///
/// Trusted wrapper around `String::push`, whose documentation says that it
/// appends the given `char` to the end of the string.
#[verifier::external_body]
pub(crate) fn push_char(s: &mut String, c: char)
    ensures
        final(s)@ == old(s)@.push(c),
{
    s.push(c);
}

/// The characters of `s`, in order.
pub fn chars_of(s: &str) -> (v: Vec<char>)
    ensures
        v@ == s@,
{
    let mut v: Vec<char> = Vec::new();
    for c in it: s.chars()
        invariant
            v@ == it.seq().take(it.index() as int),
    {
        v.push(c);
    }
    v
}

/// The string made of `cs[from..to]`.
pub fn string_of(cs: &[char], from: usize, to: usize) -> (s: String)
    requires
        from <= to <= cs@.len(),
    ensures
        s@ == cs@.subrange(from as int, to as int),
{
    let mut s = String::new();
    let mut i = from;
    while i < to
        invariant
            from <= i <= to <= cs@.len(),
            s@ == cs@.subrange(from as int, i as int),
        decreases to - i,
    {
        push_char(&mut s, cs[i]);
        i = i + 1;
        assert(s@ =~= cs@.subrange(from as int, i as int));
    }
    s
}

/// Whether `a` and `b` hold the same text.
pub fn same_text(a: &str, b: &str) -> (r: bool)
    ensures
        r == (a@ == b@),
{
    let x = chars_of(a);
    let y = chars_of(b);
    if x.len() != y.len() {
        return false;
    }
    let mut i: usize = 0;
    while i < x.len()
        invariant
            x@ == a@,
            y@ == b@,
            x@.len() == y@.len(),
            i <= x@.len(),
            forall|j: int| 0 <= j < i ==> x@[j] == y@[j],
        decreases x@.len() - i,
    {
        if x[i] != y[i] {
            return false;
        }
        i = i + 1;
    }
    assert(x@ =~= y@);
    true
}

/// The maximal runs of non-white-space characters of `s`, in order
/// (what `str::split_whitespace` yields).
pub open spec fn words(s: Seq<char>) -> Seq<Seq<char>>
    decreases s.len(),
{
    if s.len() == 0 {
        Seq::empty()
    } else {
        let w = words(s.drop_last());
        let c = s.last();
        if is_ws(c) {
            w
        } else if s.len() >= 2 && !is_ws(s[s.len() - 2]) {
            w.update(w.len() - 1, w.last().push(c))
        } else {
            w.push(seq![c])
        }
    }
}

/// The white-space separated words of `cs[from..to]`.
pub fn split_words(cs: &[char], from: usize, to: usize) -> (out: Vec<String>)
    requires
        from <= to <= cs@.len(),
    ensures
        strs_view(out@) == words(cs@.subrange(from as int, to as int)),
{
    let mut out: Vec<String> = Vec::new();
    let mut cur = String::new();
    let mut in_word = false;
    let mut i: usize = from;
    while i < to
        invariant
            from <= i <= to <= cs@.len(),
            in_word == (cur@.len() > 0),
            cur@.len() > 0 <==> (i > from && !is_ws(cs@[i - 1])),
            cur@.len() == 0 ==> strs_view(out@) == words(cs@.subrange(from as int, i as int)),
            cur@.len() > 0 ==> strs_view(out@).push(cur@) == words(
                cs@.subrange(from as int, i as int),
            ),
        decreases to - i,
    {
        let c = cs[i];
        let ghost pre = cs@.subrange(from as int, i as int);
        let ghost next = cs@.subrange(from as int, i + 1);
        assert(next.drop_last() =~= pre);
        assert(next.last() == c);
        if is_whitespace(c) {
            if in_word {
                out.push(cur);
                cur = String::new();
                in_word = false;
                assert(strs_view(out@) =~= words(pre));
            }
            assert(strs_view(out@) == words(next));
        } else {
            if in_word {
                let ghost w = words(pre);
                assert(next[next.len() - 2] == cs@[i - 1]);
                assert(strs_view(out@).push(cur@) == w);
                push_char(&mut cur, c);
                assert(w.update(w.len() - 1, w.last().push(c)) =~= strs_view(out@).push(cur@));
            } else {
                push_char(&mut cur, c);
                in_word = true;
                assert(cur@ =~= seq![c]);
                assert(strs_view(out@).push(cur@) =~= words(pre).push(seq![c]));
            }
        }
        i = i + 1;
    }
    if in_word {
        out.push(cur);
        assert(strs_view(out@) =~= words(cs@.subrange(from as int, to as int)));
    }
    out
}

/// The `\n`-separated segments of `s`; there is always at least one.
pub open spec fn split_lines(s: Seq<char>) -> Seq<Seq<char>>
    decreases s.len(),
{
    if s.len() == 0 {
        seq![Seq::empty()]
    } else {
        let ls = split_lines(s.drop_last());
        if s.last() == '\n' {
            ls.push(Seq::empty())
        } else {
            ls.update(ls.len() - 1, ls.last().push(s.last()))
        }
    }
}

pub proof fn lemma_split_lines_nonempty(s: Seq<char>)
    ensures
        split_lines(s).len() >= 1,
    decreases s.len(),
{
    if s.len() > 0 {
        lemma_split_lines_nonempty(s.drop_last());
    }
}

/// The segments `cs[b.0..b.1]` named by `bounds`.
pub open spec fn segments(cs: Seq<char>, bounds: Seq<(usize, usize)>) -> Seq<Seq<char>> {
    bounds.map_values(|b: (usize, usize)| cs.subrange(b.0 as int, b.1 as int))
}

/// Start and end of each `\n`-separated segment of `cs`.
pub fn line_bounds(cs: &[char]) -> (bounds: Vec<(usize, usize)>)
    ensures
        segments(cs@, bounds@) == split_lines(cs@),
        forall|k: int|
            0 <= k < bounds@.len() ==> #[trigger] bounds@[k].0 <= bounds@[k].1 <= cs@.len(),
{
    let mut bounds: Vec<(usize, usize)> = Vec::new();
    let mut start: usize = 0;
    let mut i: usize = 0;
    assert(segments(cs@, bounds@).push(cs@.subrange(0, 0)) =~~= split_lines(cs@.take(0)));
    while i < cs.len()
        invariant
            start <= i <= cs@.len(),
            segments(cs@, bounds@).push(cs@.subrange(start as int, i as int)) == split_lines(
                cs@.take(i as int),
            ),
            forall|k: int|
                0 <= k < bounds@.len() ==> #[trigger] bounds@[k].0 <= bounds@[k].1 <= cs@.len(),
        decreases cs@.len() - i,
    {
        let ghost pre = cs@.take(i as int);
        let ghost next = cs@.take(i + 1);
        let ghost old_bounds = bounds@;
        let ghost old_start = start;
        assert(next.drop_last() =~= pre);
        assert(next.last() == cs@[i as int]);
        proof {
            lemma_split_lines_nonempty(pre);
        }
        if cs[i] == '\n' {
            bounds.push((start, i));
            start = i + 1;
            assert forall|k: int| 0 <= k < bounds@.len() implies #[trigger] bounds@[k].0
                <= bounds@[k].1 <= cs@.len() by {
                if k < old_bounds.len() {
                    assert(bounds@[k] == old_bounds[k]);
                }
            }
            assert(segments(cs@, bounds@) =~= segments(cs@, old_bounds).push(
                cs@.subrange(old_start as int, i as int),
            ));
            assert(segments(cs@, bounds@).push(cs@.subrange(start as int, i + 1)) =~~= split_lines(
                next,
            ));
        } else {
            let ghost ls = split_lines(pre);
            assert(ls.update(ls.len() - 1, ls.last().push(cs@[i as int])) =~~= segments(
                cs@,
                bounds@,
            ).push(cs@.subrange(start as int, i + 1)));
        }
        i = i + 1;
    }
    bounds.push((start, i));
    assert(cs@.take(i as int) =~= cs@);
    assert(segments(cs@, bounds@) =~= split_lines(cs@));
    bounds
}

/// `k` is where the code part of line `l` ends: at its first `#`, or at its end.
pub open spec fn is_code_end(l: Seq<char>, k: int) -> bool {
    &&& 0 <= k <= l.len()
    &&& forall|j: int| 0 <= j < k ==> l[j] != '#'
    &&& (k == l.len() || l[k] == '#')
}

/// The part of line `l` before its first `#` (all of it when there is none).
pub open spec fn code_part(l: Seq<char>) -> Seq<char> {
    l.take(choose|k: int| is_code_end(l, k))
}

proof fn lemma_code_end_unique(l: Seq<char>, a: int, b: int)
    requires
        is_code_end(l, a),
        is_code_end(l, b),
    ensures
        a == b,
{
    if a < b {
        assert(l[a] != '#');
    } else if b < a {
        assert(l[b] != '#');
    }
}

/// Index in `cs` where the code part of `cs[from..to]` ends.
pub fn code_end(cs: &[char], from: usize, to: usize) -> (k: usize)
    requires
        from <= to <= cs@.len(),
    ensures
        from <= k <= to,
        cs@.subrange(from as int, k as int) == code_part(cs@.subrange(from as int, to as int)),
{
    let ghost l = cs@.subrange(from as int, to as int);
    let mut k = from;
    while k < to && cs[k] != '#'
        invariant
            from <= k <= to <= cs@.len(),
            forall|j: int| from <= j < k ==> cs@[j] != '#',
        decreases to - k,
    {
        k = k + 1;
    }
    proof {
        assert forall|j: int| 0 <= j < k - from implies l[j] != '#' by {
            assert(l[j] == cs@[from + j]);
        }
        if k < to {
            assert(l[k - from] == cs@[k as int]);
        }
        assert(is_code_end(l, k - from));
        let c = choose|c: int| is_code_end(l, c);
        lemma_code_end_unique(l, c, k - from);
        assert(cs@.subrange(from as int, k as int) =~= l.take(k - from));
    }
    k
}

/// Leading white space removed.
pub open spec fn trim_start(s: Seq<char>) -> Seq<char>
    decreases s.len(),
{
    if s.len() > 0 && is_ws(s[0]) {
        trim_start(s.drop_first())
    } else {
        s
    }
}

/// Trailing white space removed.
pub open spec fn trim_end(s: Seq<char>) -> Seq<char>
    decreases s.len(),
{
    if s.len() > 0 && is_ws(s.last()) {
        trim_end(s.drop_last())
    } else {
        s
    }
}

/// Leading and trailing white space removed (what `str::trim` gives).
pub open spec fn trim(s: Seq<char>) -> Seq<char> {
    trim_end(trim_start(s))
}

/// Every non-overlapping occurrence of `pat` in `s`, found left to right,
/// replaced by `rep` (what `str::replace` gives for a non-empty pattern).
pub open spec fn replace_all(s: Seq<char>, pat: Seq<char>, rep: Seq<char>) -> Seq<char>
    recommends
        pat.len() > 0,
    decreases s.len(),
{
    if s.len() == 0 || pat.len() == 0 {
        s
    } else if pat.len() <= s.len() && s.take(pat.len() as int) == pat {
        rep + replace_all(s.skip(pat.len() as int), pat, rep)
    } else {
        seq![s[0]] + replace_all(s.drop_first(), pat, rep)
    }
}

/// `s` with every `\\` replaced by `/`.
pub open spec fn forward_slashes(s: Seq<char>) -> Seq<char> {
    s.map_values(|c: char| if c == '\\' { '/' } else { c })
}

/// `parts` joined with `sep` between consecutive parts.
pub open spec fn join_with(parts: Seq<Seq<char>>, sep: Seq<char>) -> Seq<char>
    decreases parts.len(),
{
    if parts.len() == 0 {
        Seq::empty()
    } else if parts.len() == 1 {
        parts[0]
    } else {
        join_with(parts.drop_last(), sep) + sep + parts.last()
    }
}

/// `s` with every `\\` turned into `/`.
pub fn forward_slash(s: &str) -> (r: String)
    ensures
        r@ == forward_slashes(s@),
{
    let cs = chars_of(s);
    let mut r = String::new();
    let mut i: usize = 0;
    while i < cs.len()
        invariant
            cs@ == s@,
            i <= cs@.len(),
            r@ == forward_slashes(cs@.take(i as int)),
        decreases cs@.len() - i,
    {
        let c = cs[i];
        if c == '\\' {
            push_char(&mut r, '/');
        } else {
            push_char(&mut r, c);
        }
        i = i + 1;
        assert(r@ =~= forward_slashes(cs@.take(i as int)));
    }
    assert(cs@.take(i as int) =~= cs@);
    r
}

/// Whether `cs[at..at + pat.len()]` is `pat`.
fn matches_at(cs: &[char], at: usize, pat: &[char]) -> (r: bool)
    requires
        at <= cs@.len(),
    ensures
        r == (at + pat@.len() <= cs@.len() && cs@.subrange(at as int, at + pat@.len()) == pat@),
{
    if pat.len() > cs.len() - at {
        return false;
    }
    let n = cs.len();
    let mut j: usize = 0;
    while j < pat.len()
        invariant
            n == cs@.len(),
            at + pat@.len() <= cs@.len(),
            j <= pat@.len(),
            forall|k: int| 0 <= k < j ==> cs@[at + k] == pat@[k],
        decreases pat@.len() - j,
    {
        assert(at + j < cs@.len());
        if cs[at + j] != pat[j] {
            assert(cs@.subrange(at as int, at + pat@.len())[j as int] != pat@[j as int]);
            return false;
        }
        j = j + 1;
    }
    assert(cs@.subrange(at as int, at + pat@.len()) =~= pat@);
    true
}

/// `s` with every non-overlapping occurrence of `pat` (found left to right)
/// replaced by `rep`.
pub fn replace_text(s: &str, pat: &str, rep: &str) -> (r: String)
    requires
        pat@.len() > 0,
    ensures
        r@ == replace_all(s@, pat@, rep@),
{
    let cs = chars_of(s);
    let ps = chars_of(pat);
    let mut r = String::new();
    let mut i: usize = 0;
    assert(cs@.skip(0) =~= cs@);
    assert(r@ + replace_all(cs@, pat@, rep@) =~= replace_all(cs@, pat@, rep@));
    while i < cs.len()
        invariant
            cs@ == s@,
            ps@ == pat@,
            ps@.len() > 0,
            i <= cs@.len(),
            r@ + replace_all(cs@.skip(i as int), pat@, rep@) == replace_all(s@, pat@, rep@),
        decreases cs@.len() - i,
    {
        let ghost rest = cs@.skip(i as int);
        if matches_at(&cs, i, &ps) {
            assert(rest.take(pat@.len() as int) =~= cs@.subrange(i as int, i + pat@.len()));
            assert(rest.skip(pat@.len() as int) =~= cs@.skip(i + pat@.len()));
            r.append(rep);
            i = i + ps.len();
        } else {
            assert(rest.len() >= pat@.len() ==> rest.take(pat@.len() as int) =~= cs@.subrange(
                i as int,
                i + pat@.len(),
            ));
            assert(rest.drop_first() =~= cs@.skip(i + 1));
            assert(seq![rest[0]] =~= seq![cs@[i as int]]);
            push_char(&mut r, cs[i]);
            i = i + 1;
        }
        assert(r@ + replace_all(cs@.skip(i as int), pat@, rep@) =~= replace_all(s@, pat@, rep@));
    }
    assert(cs@.skip(i as int) =~= Seq::<char>::empty());
    assert(r@ + Seq::<char>::empty() =~= r@);
    r
}

/// `s` without its leading and trailing white space.
pub fn trim_text(s: &str) -> (r: String)
    ensures
        r@ == trim(s@),
{
    let cs = chars_of(s);
    let mut a: usize = 0;
    assert(cs@.skip(0) =~= cs@);
    while a < cs.len() && is_whitespace(cs[a])
        invariant
            cs@ == s@,
            a <= cs@.len(),
            trim_start(s@) == trim_start(cs@.skip(a as int)),
        decreases cs@.len() - a,
    {
        assert(cs@.skip(a as int).drop_first() =~= cs@.skip(a + 1));
        a = a + 1;
    }
    let ghost t = cs@.skip(a as int);
    assert(trim_start(t) == t);
    let mut b: usize = cs.len();
    assert(cs@.subrange(a as int, b as int) =~= t);
    while b > a && is_whitespace(cs[b - 1])
        invariant
            cs@ == s@,
            a <= b <= cs@.len(),
            trim_end(t) == trim_end(cs@.subrange(a as int, b as int)),
        decreases b,
    {
        assert(cs@.subrange(a as int, b as int).drop_last() =~= cs@.subrange(a as int, b - 1));
        b = b - 1;
    }
    string_of(&cs, a, b)
}

/// `toks[from..]` joined with `sep` between consecutive parts.
pub fn join_from(toks: &[String], from: usize, sep: &str) -> (r: String)
    requires
        from <= toks@.len(),
    ensures
        r@ == join_with(strs_view(toks@).skip(from as int), sep@),
{
    let mut r = String::new();
    let mut i = from;
    while i < toks.len()
        invariant
            from <= i <= toks@.len(),
            r@ == join_with(strs_view(toks@).subrange(from as int, i as int), sep@),
        decreases toks@.len() - i,
    {
        let ghost parts = strs_view(toks@).subrange(from as int, i + 1);
        assert(parts.drop_last() =~= strs_view(toks@).subrange(from as int, i as int));
        if i > from {
            r.append(sep);
        }
        r.append(toks[i].as_str());
        proof {
            if i == from {
                assert(r@ =~= parts[0]);
            }
        }
        i = i + 1;
    }
    assert(strs_view(toks@).subrange(from as int, i as int) =~= strs_view(toks@).skip(
        from as int,
    ));
    r
}

/// The decimal digits of `n`.
pub open spec fn decimal(n: nat) -> Seq<char>
    decreases n,
{
    if n < 10 {
        seq![((48 + n) as u8) as char]
    } else {
        decimal(n / 10).push(((48 + n % 10) as u8) as char)
    }
}

/// Append the decimal digits of `n` to `s`.
pub fn push_decimal(s: &mut String, n: usize)
    ensures
        final(s)@ == old(s)@ + decimal(n as nat),
    decreases n,
{
    if n >= 10 {
        push_decimal(s, n / 10);
    }
    let d = (n % 10) as u8;
    push_char(s, (48u8 + d) as char);
    assert(final(s)@ =~= old(s)@ + decimal(n as nat));
}

/// `"{:?}"` formatting of a `str`: the text quoted and escaped as Rust's
/// `Debug` implementation for `str` writes it.
pub uninterp spec fn debug_text(s: Seq<char>) -> Seq<char>;

/// The `Debug` rendering of `s` (quoted and escaped).
///
/// Trusted wrapper around `format!("{:?}", s)`; its result is a function of
/// `s` alone, named `debug_text`.
#[verifier::external_body]
pub(crate) fn debug_quoted(s: &str) -> (r: String)
    ensures
        r@ == debug_text(s@),
{
    format!("{:?}", s)
}

} // verus!
