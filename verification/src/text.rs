//! Text helpers over `str` and `String`, specified on their character views.

use vstd::prelude::*;
use vstd::string::StrSliceExecFns;

verus! {

/// Equality of two string slices.
pub fn str_eq(a: &str, b: &str) -> (r: bool)
    ensures
        r == (a@ == b@),
{
    String::from_str(a) == String::from_str(b)
}

/// Lexicographic order on characters. A string's UTF-8 bytes compare in the
/// same order as its characters, so this is the order of `str`'s `Ord`.
pub open spec fn text_lt(a: Seq<char>, b: Seq<char>) -> bool
    decreases a.len(),
{
    if a.len() == 0 {
        b.len() > 0
    } else if b.len() == 0 {
        false
    } else if a[0] != b[0] {
        (a[0] as int) < (b[0] as int)
    } else {
        text_lt(a.drop_first(), b.drop_first())
    }
}

/// The order is total on distinct texts.
pub proof fn lemma_text_lt_total(a: Seq<char>, b: Seq<char>)
    ensures
        a != b ==> text_lt(a, b) || text_lt(b, a),
    decreases a.len(),
{
    if a.len() > 0 && b.len() > 0 && a[0] == b[0] {
        lemma_text_lt_total(a.drop_first(), b.drop_first());
        if a.drop_first() == b.drop_first() {
            assert(a =~= seq![a[0]] + a.drop_first());
            assert(b =~= seq![b[0]] + b.drop_first());
        }
    } else if a.len() > 0 && b.len() > 0 {
        assert((a[0] as int) != (b[0] as int));
    } else if a.len() == 0 && b.len() == 0 {
        assert(a =~= b);
    }
}

/// The order is transitive.
pub proof fn lemma_text_lt_transitive(a: Seq<char>, b: Seq<char>, c: Seq<char>)
    requires
        text_lt(a, b),
        text_lt(b, c),
    ensures
        text_lt(a, c),
    decreases a.len(),
{
    if a.len() > 0 && b.len() > 0 && c.len() > 0 && a[0] == b[0] && b[0] == c[0] {
        lemma_text_lt_transitive(a.drop_first(), b.drop_first(), c.drop_first());
    }
}

/// Whether `a` sorts before `b`.
pub fn text_less(a: &str, b: &str) -> (r: bool)
    ensures
        r == text_lt(a@, b@),
{
    let na = a.unicode_len();
    let nb = b.unicode_len();
    let mut i: usize = 0;
    proof {
        assert(a@.skip(0) =~= a@);
        assert(b@.skip(0) =~= b@);
    }
    while i < na && i < nb
        invariant
            na == a@.len(),
            nb == b@.len(),
            i <= na,
            i <= nb,
            text_lt(a@, b@) == text_lt(a@.skip(i as int), b@.skip(i as int)),
        decreases na - i,
    {
        let ca = a.get_char(i);
        let cb = b.get_char(i);
        proof {
            assert(a@.skip(i as int)[0] == ca);
            assert(b@.skip(i as int)[0] == cb);
            assert(a@.skip(i as int).drop_first() =~= a@.skip(i + 1));
            assert(b@.skip(i as int).drop_first() =~= b@.skip(i + 1));
        }
        if ca != cb {
            return (ca as u32) < (cb as u32);
        }
        i = i + 1;
    }
    i == na && i < nb
}

/// `parts` joined with `sep` between consecutive parts.
pub open spec fn join(parts: Seq<Seq<char>>, sep: Seq<char>) -> Seq<char>
    decreases parts.len(),
{
    if parts.len() == 0 {
        Seq::empty()
    } else if parts.len() == 1 {
        parts[0]
    } else {
        join(parts.drop_last(), sep) + sep + parts.last()
    }
}

/// Join strings with a separator.
pub fn join_text(parts: &Vec<String>, sep: &str) -> (r: String)
    ensures
        r@ == join(parts@.map_values(|p: String| p@), sep@),
{
    let ghost pv = parts@.map_values(|p: String| p@);
    let mut out = String::new();
    let mut i: usize = 0;
    while i < parts.len()
        invariant
            i <= parts@.len(),
            pv == parts@.map_values(|p: String| p@),
            out@ == join(pv.take(i as int), sep@),
        decreases parts@.len() - i,
    {
        if i > 0 {
            out.append(sep);
        }
        out.append(parts[i].as_str());
        proof {
            assert(pv.take(i + 1).drop_last() =~= pv.take(i as int));
            assert(pv.take(i + 1).last() == pv[i as int]);
            if i == 0 {
                assert(pv.take(1)[0] == pv[0]);
            }
        }
        i = i + 1;
    }
    proof {
        assert(pv.take(parts@.len() as int) =~= pv);
    }
    out
}

/// The decimal digit character of `d` (below ten).
pub open spec fn digit_char(d: nat) -> char {
    if d == 0 {
        '0'
    } else if d == 1 {
        '1'
    } else if d == 2 {
        '2'
    } else if d == 3 {
        '3'
    } else if d == 4 {
        '4'
    } else if d == 5 {
        '5'
    } else if d == 6 {
        '6'
    } else if d == 7 {
        '7'
    } else if d == 8 {
        '8'
    } else {
        '9'
    }
}

/// The decimal rendering of `n`, without leading zeros.
pub open spec fn decimal(n: nat) -> Seq<char>
    decreases n,
{
    if n < 10 {
        seq![digit_char(n)]
    } else {
        decimal(n / 10).push(digit_char(n % 10))
    }
}

fn digit_text(d: u64) -> (r: &'static str)
    requires
        d < 10,
    ensures
        r@ == seq![digit_char(d as nat)],
{
    proof {
        reveal_strlit("0");
        reveal_strlit("1");
        reveal_strlit("2");
        reveal_strlit("3");
        reveal_strlit("4");
        reveal_strlit("5");
        reveal_strlit("6");
        reveal_strlit("7");
        reveal_strlit("8");
        reveal_strlit("9");
    }
    match d {
        0 => "0",
        1 => "1",
        2 => "2",
        3 => "3",
        4 => "4",
        5 => "5",
        6 => "6",
        7 => "7",
        8 => "8",
        _ => "9",
    }
}

/// `n` written in decimal.
pub fn decimal_text(n: u64) -> (r: String)
    ensures
        r@ == decimal(n as nat),
    decreases n,
{
    if n < 10 {
        String::from_str(digit_text(n))
    } else {
        let mut s = decimal_text(n / 10);
        s.append(digit_text(n % 10));
        s
    }
}

/// Unicode `White_Space`, the whitespace `str::trim` removes.
pub open spec fn is_space(c: char) -> bool {
    c == ' ' || ('\x09' <= c && c <= '\x0d') || c == '\u{85}' || c == '\u{a0}' || c == '\u{1680}' || ('\u{2000}' <= c
        && c <= '\u{200a}') || c == '\u{2028}' || c == '\u{2029}' || c == '\u{202f}' || c == '\u{205f}' || c == '\u{3000}'
}

pub fn char_is_space(c: char) -> (r: bool)
    ensures
        r == is_space(c),
{
    c == ' ' || ('\x09' <= c && c <= '\x0d') || c == '\u{85}' || c == '\u{a0}' || c == '\u{1680}' || ('\u{2000}' <= c
        && c <= '\u{200a}') || c == '\u{2028}' || c == '\u{2029}' || c == '\u{202f}' || c == '\u{205f}' || c == '\u{3000}'
}

pub open spec fn trim_start(s: Seq<char>) -> Seq<char>
    decreases s.len(),
{
    if s.len() > 0 && is_space(s[0]) {
        trim_start(s.drop_first())
    } else {
        s
    }
}

pub open spec fn trim_end(s: Seq<char>) -> Seq<char>
    decreases s.len(),
{
    if s.len() > 0 && is_space(s.last()) {
        trim_end(s.drop_last())
    } else {
        s
    }
}

/// `s` without leading and trailing whitespace.
pub open spec fn trim(s: Seq<char>) -> Seq<char> {
    trim_end(trim_start(s))
}

/// Remove leading and trailing whitespace.
pub fn trim_text(s: &str) -> (r: String)
    ensures
        r@ == trim(s@),
{
    let n = s.unicode_len();
    let mut i: usize = 0;
    proof {
        assert(s@.skip(0) =~= s@);
    }
    while i < n && char_is_space(s.get_char(i))
        invariant
            n == s@.len(),
            i <= n,
            trim_start(s@) == trim_start(s@.skip(i as int)),
        decreases n - i,
    {
        proof {
            assert(s@.skip(i as int).drop_first() =~= s@.skip(i + 1));
        }
        i = i + 1;
    }
    let ghost st = s@.skip(i as int);
    proof {
        assert(trim_start(s@) == st);
    }
    let mut j: usize = n;
    proof {
        assert(s@.subrange(i as int, n as int) =~= st);
    }
    while j > i && char_is_space(s.get_char(j - 1))
        invariant
            n == s@.len(),
            i <= j <= n,
            st == s@.skip(i as int),
            trim_end(st) == trim_end(s@.subrange(i as int, j as int)),
        decreases j,
    {
        proof {
            assert(s@.subrange(i as int, j as int).drop_last() =~= s@.subrange(i as int, j - 1));
            assert(s@.subrange(i as int, j as int).last() == s@[j - 1]);
        }
        j = j - 1;
    }
    let out = s.substring_char(i, j);
    proof {
        if j > i {
            assert(s@.subrange(i as int, j as int).last() == s@[j - 1]);
        }
    }
    out.to_string()
}

/// ASCII lower case of one character.
pub open spec fn lower_char(c: char) -> char {
    if 'A' <= c && c <= 'Z' {
        ((c as u32) + 32) as char
    } else {
        c
    }
}

/// `s` with ASCII letters lower-cased, other characters unchanged.
pub open spec fn ascii_lower(s: Seq<char>) -> Seq<char> {
    s.map_values(|c: char| lower_char(c))
}

/// Lower-case the ASCII letters of `s`.
pub fn ascii_lower_text(s: &str) -> (r: String)
    ensures
        r@ == ascii_lower(s@),
{
    let letters = "abcdefghijklmnopqrstuvwxyz";
    proof {
        reveal_strlit("abcdefghijklmnopqrstuvwxyz");
    }
    let n = s.unicode_len();
    let mut out = String::new();
    let mut i: usize = 0;
    while i < n
        invariant
            n == s@.len(),
            i <= n,
            letters@ == "abcdefghijklmnopqrstuvwxyz"@,
            letters@.len() == 26,
            forall|k: int| 0 <= k < 26 ==> #[trigger] letters@[k] == ((k + 97) as char),
            out@ == ascii_lower(s@.take(i as int)),
        decreases n - i,
    {
        let c = s.get_char(i);
        if 'A' <= c && c <= 'Z' {
            let k = (c as u32 - 65) as usize;
            let l = letters.substring_char(k, k + 1);
            proof {
                assert(l@ =~= seq![letters@[k as int]]);
                assert(letters@[k as int] == lower_char(c));
            }
            out.append(l);
        } else {
            let l = s.substring_char(i, i + 1);
            proof {
                assert(l@ =~= seq![c]);
            }
            out.append(l);
        }
        proof {
            assert(s@.take(i + 1) =~= s@.take(i as int).push(c));
            assert(ascii_lower(s@.take(i + 1)) =~= ascii_lower(s@.take(i as int)).push(lower_char(c)));
        }
        i = i + 1;
    }
    proof {
        assert(s@.take(n as int) =~= s@);
    }
    out
}

/// `s` with every occurrence of the non-empty `from` replaced by `to`,
/// scanning left to right without overlaps.
pub open spec fn replace_all(s: Seq<char>, from: Seq<char>, to: Seq<char>) -> Seq<char>
    decreases s.len(),
{
    if from.len() == 0 || s.len() < from.len() {
        s
    } else if s.subrange(0, from.len() as int) == from {
        to + replace_all(s.skip(from.len() as int), from, to)
    } else {
        seq![s[0]] + replace_all(s.drop_first(), from, to)
    }
}

/// Replace every occurrence of a non-empty pattern.
pub fn replace_text(s: &str, from: &str, to: &str) -> (r: String)
    requires
        from@.len() > 0,
    ensures
        r@ == replace_all(s@, from@, to@),
{
    let n = s.unicode_len();
    let m = from.unicode_len();
    let mut out = String::new();
    let mut i: usize = 0;
    proof {
        assert(s@.skip(0) =~= s@);
    }
    while i < n
        invariant
            n == s@.len(),
            m == from@.len(),
            m > 0,
            i <= n,
            replace_all(s@, from@, to@) == out@ + replace_all(s@.skip(i as int), from@, to@),
        decreases n - i,
    {
        let ghost rest = s@.skip(i as int);
        if n - i >= m && str_eq(s.substring_char(i, i + m), from) {
            proof {
                assert(rest.subrange(0, m as int) =~= s@.subrange(i as int, i + m));
                assert(rest.skip(m as int) =~= s@.skip(i + m));
            }
            out.append(to);
            i = i + m;
        } else {
            let c = s.substring_char(i, i + 1);
            proof {
                if n - i >= m {
                    assert(rest.subrange(0, m as int) =~= s@.subrange(i as int, i + m));
                }
                assert(c@ =~= seq![rest[0]]);
                assert(rest.drop_first() =~= s@.skip(i + 1));
            }
            out.append(c);
            i = i + 1;
        }
    }
    proof {
        assert(s@.skip(n as int).len() == 0);
        assert(out@ + s@.skip(n as int) =~= out@);
    }
    out
}

/// `s` cut at every character for which `cut` holds (those characters
/// dropped), first field to last; there is always at least one field.
pub open spec fn split_by(s: Seq<char>, cut: spec_fn(char) -> bool) -> Seq<Seq<char>>
    decreases s.len(),
{
    if s.len() == 0 {
        seq![Seq::empty()]
    } else {
        let pre = split_by(s.drop_last(), cut);
        if cut(s.last()) {
            pre.push(Seq::empty())
        } else {
            pre.update(pre.len() - 1, pre.last().push(s.last()))
        }
    }
}

/// Cutting at one character (`str::split` with a `char` pattern).
pub open spec fn is_char(c: char) -> spec_fn(char) -> bool {
    |x: char| x == c
}

/// Cutting at whitespace.
pub open spec fn space_cut() -> spec_fn(char) -> bool {
    |x: char| is_space(x)
}

/// A non-empty field.
pub open spec fn nonempty() -> spec_fn(Seq<char>) -> bool {
    |w: Seq<char>| w.len() > 0
}

/// The whitespace-separated words of `s` (`str::split_whitespace`).
pub open spec fn words_of(s: Seq<char>) -> Seq<Seq<char>> {
    split_by(s, space_cut()).filter(nonempty())
}

/// A line without the `'\r'` of a `"\r\n"` ending.
pub open spec fn strip_cr(l: Seq<char>) -> Seq<char> {
    if l.len() > 0 && l.last() == '\r' {
        l.drop_last()
    } else {
        l
    }
}

/// The lines of `s` (`str::lines`): cut at `'\n'`, a line that ended in
/// `"\r\n"` loses its `'\r'`, and a final empty line is not one.
pub open spec fn lines_of(s: Seq<char>) -> Seq<Seq<char>> {
    let parts = split_by(s, is_char('\n'));
    parts.drop_last().map_values(|l: Seq<char>| strip_cr(l)) + (if parts.last().len() > 0 {
        seq![parts.last()]
    } else {
        Seq::empty()
    })
}

pub proof fn lemma_split_by_len(s: Seq<char>, cut: spec_fn(char) -> bool)
    ensures
        split_by(s, cut).len() >= 1,
    decreases s.len(),
{
    if s.len() > 0 {
        lemma_split_by_len(s.drop_last(), cut);
    }
}

/// `split_by` of a prefix one character longer.
proof fn lemma_split_by_step(s: Seq<char>, cut: spec_fn(char) -> bool, i: int, start: int)
    requires
        0 <= start <= i < s.len(),
        split_by(s.take(i), cut).last() == s.subrange(start, i),
    ensures
        split_by(s.take(i + 1), cut) == if cut(s[i]) {
            split_by(s.take(i), cut).push(Seq::empty())
        } else {
            split_by(s.take(i), cut).update(split_by(s.take(i), cut).len() - 1, s.subrange(start, i + 1))
        },
{
    assert(s.take(i + 1).drop_last() =~= s.take(i));
    assert(s.take(i + 1).last() == s[i]);
    assert(s.subrange(start, i).push(s[i]) =~= s.subrange(start, i + 1));
}

/// Cut `s` at every `c`.
pub fn split_text(s: &str, c: char) -> (r: Vec<String>)
    ensures
        r@.map_values(|x: String| x@) == split_by(s@, is_char(c)),
{
    let n = s.unicode_len();
    let mut out: Vec<String> = Vec::new();
    let mut start: usize = 0;
    let mut i: usize = 0;
    proof {
        assert(s@.take(0) =~= Seq::<char>::empty());
        assert(s@.subrange(0, 0) =~= Seq::<char>::empty());
        assert(out@.map_values(|x: String| x@).push(s@.subrange(0, 0)) =~= split_by(s@.take(0), is_char(c)));
    }
    while i < n
        invariant
            n == s@.len(),
            start <= i <= n,
            out@.map_values(|x: String| x@).push(s@.subrange(start as int, i as int)) == split_by(s@.take(i as int), is_char(c)),
        decreases n - i,
    {
        proof {
            lemma_split_by_len(s@.take(i as int), is_char(c));
            lemma_split_by_step(s@, is_char(c), i as int, start as int);
        }
        let ghost prev = out@.map_values(|x: String| x@);
        let ghost st0 = start as int;
        if s.get_char(i) == c {
            let f = s.substring_char(start, i).to_string();
            out.push(f);
            start = i + 1;
            proof {
                assert(out@.map_values(|x: String| x@) =~= prev.push(s@.subrange(st0, i as int)));
                assert(s@.subrange(start as int, i + 1) =~= Seq::<char>::empty());
                assert(out@.map_values(|x: String| x@).push(s@.subrange(start as int, i + 1)) =~= split_by(s@.take(i + 1), is_char(c)));
            }
        } else {
            proof {
                assert(prev.push(s@.subrange(start as int, i + 1)) =~= split_by(s@.take(i + 1), is_char(c)));
            }
        }
        i = i + 1;
    }
    let last = s.substring_char(start, n).to_string();
    let ghost prev = out@.map_values(|x: String| x@);
    out.push(last);
    proof {
        assert(s@.take(n as int) =~= s@);
        assert(out@.map_values(|x: String| x@) =~= prev.push(s@.subrange(start as int, n as int)));
    }
    out
}

/// The whitespace-separated words of `s`.
pub fn words_text(s: &str) -> (r: Vec<String>)
    ensures
        r@.map_values(|x: String| x@) == words_of(s@),
{
    let n = s.unicode_len();
    let mut out: Vec<String> = Vec::new();
    let mut start: usize = 0;
    let mut i: usize = 0;
    proof {
        assert(s@.take(0) =~= Seq::<char>::empty());
        assert(s@.subrange(0, 0) =~= Seq::<char>::empty());
        reveal(Seq::filter);
        assert(split_by(s@.take(0), space_cut()).drop_last() =~= Seq::<Seq<char>>::empty());
        assert(out@.map_values(|x: String| x@) =~= split_by(s@.take(0), space_cut()).drop_last().filter(nonempty()));
    }
    while i < n
        invariant
            n == s@.len(),
            start <= i <= n,
            split_by(s@.take(i as int), space_cut()).len() >= 1,
            split_by(s@.take(i as int), space_cut()).last() == s@.subrange(start as int, i as int),
            out@.map_values(|x: String| x@) == split_by(s@.take(i as int), space_cut()).drop_last().filter(nonempty()),
        decreases n - i,
    {
        let ghost pre = split_by(s@.take(i as int), space_cut());
        let ghost prev = out@.map_values(|x: String| x@);
        let ghost st0 = start as int;
        proof {
            lemma_split_by_step(s@, space_cut(), i as int, start as int);
        }
        if char_is_space(s.get_char(i)) {
            if start < i {
                let f = s.substring_char(start, i).to_string();
                out.push(f);
            }
            start = i + 1;
            proof {
                reveal(Seq::filter);
                let new = split_by(s@.take(i + 1), space_cut());
                assert(new == pre.push(Seq::empty()));
                assert(new.drop_last() =~= pre);
                assert(pre.drop_last().push(pre.last()) =~= pre);
                if st0 < i {
                    assert(out@.map_values(|x: String| x@) =~= prev.push(s@.subrange(st0, i as int)));
                } else {
                    assert(s@.subrange(st0, i as int).len() == 0);
                    assert(out@.map_values(|x: String| x@) =~= prev);
                }
                assert(new.last() =~= s@.subrange(start as int, i + 1));
            }
        } else {
            proof {
                let new = split_by(s@.take(i + 1), space_cut());
                assert(new.drop_last() =~= pre.drop_last());
            }
        }
        i = i + 1;
    }
    let ghost whole = split_by(s@, space_cut());
    let ghost prev = out@.map_values(|x: String| x@);
    proof {
        assert(s@.take(n as int) =~= s@);
        reveal(Seq::filter);
        assert(whole.drop_last().push(whole.last()) =~= whole);
    }
    if start < n {
        let last = s.substring_char(start, n).to_string();
        out.push(last);
        proof {
            assert(out@.map_values(|x: String| x@) =~= prev.push(s@.subrange(start as int, n as int)));
        }
    } else {
        proof {
            assert(whole.last().len() == 0);
        }
    }
    out
}

/// A line without the `'\r'` of a `"\r\n"` ending.
fn strip_cr_text(l: &str) -> (r: String)
    ensures
        r@ == strip_cr(l@),
{
    let n = l.unicode_len();
    if n > 0 && l.get_char(n - 1) == '\r' {
        let t = l.substring_char(0, n - 1);
        proof {
            assert(t@ =~= l@.drop_last());
        }
        t.to_string()
    } else {
        l.to_string()
    }
}

/// The lines of `s` (see `lines_of`).
pub fn lines_text(s: &str) -> (r: Vec<String>)
    ensures
        r@.map_values(|x: String| x@) == lines_of(s@),
{
    let parts = split_text(s, '\n');
    let ghost pv = parts@.map_values(|x: String| x@);
    proof {
        lemma_split_by_len(s@, is_char('\n'));
    }
    let n = parts.len();
    let mut out: Vec<String> = Vec::new();
    let mut j: usize = 0;
    while j < n - 1
        invariant
            n == parts@.len(),
            n >= 1,
            pv == parts@.map_values(|x: String| x@),
            j <= n - 1,
            out@.map_values(|x: String| x@) == pv.take(j as int).map_values(|l: Seq<char>| strip_cr(l)),
        decreases n - 1 - j,
    {
        let ghost prev = out@.map_values(|x: String| x@);
        let line = strip_cr_text(parts[j].as_str());
        out.push(line);
        proof {
            assert(parts@[j as int]@ == pv[j as int]);
            assert(out@.map_values(|x: String| x@) =~= prev.push(strip_cr(pv[j as int])));
            assert(pv.take(j + 1) =~= pv.take(j as int).push(pv[j as int]));
            assert(pv.take(j + 1).map_values(|l: Seq<char>| strip_cr(l)) =~= pv.take(j as int).map_values(|l: Seq<char>| strip_cr(l)).push(strip_cr(pv[j as int])));
            assert(out@.map_values(|x: String| x@) =~= pv.take(j + 1).map_values(|l: Seq<char>| strip_cr(l)));
        }
        j = j + 1;
    }
    let ghost prev = out@.map_values(|x: String| x@);
    proof {
        assert(pv.take(n - 1) =~= pv.drop_last());
    }
    if parts[n - 1].unicode_len() > 0 {
        out.push(parts[n - 1].clone());
        proof {
            assert(out@.map_values(|x: String| x@) =~= prev + seq![pv.last()]);
        }
    } else {
        proof {
            assert(prev + Seq::<Seq<char>>::empty() =~= prev);
        }
    }
    out
}

/// Whether `pat` occurs in `s` (`str::contains`).
pub open spec fn occurs(s: Seq<char>, pat: Seq<char>) -> bool {
    exists|i: int| 0 <= i && i + pat.len() <= s.len() && #[trigger] s.subrange(i, i + pat.len()) == pat
}

/// Whether `pat` occurs in `s`.
pub fn text_contains(s: &str, pat: &str) -> (r: bool)
    ensures
        r == occurs(s@, pat@),
{
    let n = s.unicode_len();
    let m = pat.unicode_len();
    if m > n {
        return false;
    }
    if m == 0 {
        proof {
            assert(s@.subrange(0int, 0int + pat@.len()) =~= pat@);
        }
        return true;
    }
    let mut i: usize = 0;
    while i <= n - m
        invariant
            n == s@.len(),
            m == pat@.len(),
            1 <= m <= n,
            i <= n - m + 1,
            forall|j: int| 0 <= j < i ==> #[trigger] s@.subrange(j, j + m) != pat@,
        decreases n - m + 1 - i,
    {
        if str_eq(s.substring_char(i, i + m), pat) {
            return true;
        }
        i = i + 1;
    }
    false
}

/// `s` without its trailing run of `c` (`str::trim_end_matches` with a
/// `char`).
pub open spec fn trim_end_char(s: Seq<char>, c: char) -> Seq<char>
    decreases s.len(),
{
    if s.len() > 0 && s.last() == c {
        trim_end_char(s.drop_last(), c)
    } else {
        s
    }
}

/// Remove every trailing `c`.
pub fn trim_end_char_text(s: &str, c: char) -> (r: String)
    ensures
        r@ == trim_end_char(s@, c),
{
    let mut j: usize = s.unicode_len();
    proof {
        assert(s@.subrange(0, j as int) =~= s@);
    }
    while j > 0 && s.get_char(j - 1) == c
        invariant
            j <= s@.len(),
            trim_end_char(s@, c) == trim_end_char(s@.subrange(0, j as int), c),
        decreases j,
    {
        proof {
            assert(s@.subrange(0, j as int).drop_last() =~= s@.subrange(0, j - 1));
        }
        j = j - 1;
    }
    s.substring_char(0, j).to_string()
}

} // verus!
