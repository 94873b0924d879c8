//! Text as sequences of characters: trimming, lines, searching and splitting.
//!
//! Every function here has an executable form on `&[char]` and a mathematical form on
//! `Seq<char>`; the contracts of the other modules speak of the mathematical forms.
use vstd::prelude::*;

verus! {

/// `String::push` of the standard library: the character is added at the end.
pub assume_specification[ String::push ](s: &mut String, ch: char)
    ensures
        final(s)@ == old(s)@.push(ch),
;

/// `String::push_str` of the standard library: the text is added at the end.
pub assume_specification[ String::push_str ](s: &mut String, string: &str)
    ensures
        final(s)@ == old(s)@ + string@,
;

// ---------------------------------------------------------------------------
// Conversions
// ---------------------------------------------------------------------------

/// The characters of a string.
pub fn to_chars(s: &str) -> (r: Vec<char>)
    ensures
        r@ == s@,
{
    let mut r: Vec<char> = Vec::new();
    for c in it: s.chars()
        invariant
            r@ == it.seq().take(it.index()),
            it.seq() == s@,
    {
        r.push(c);
    }
    r
}

/// The string made of the given characters.
pub fn from_chars(v: &[char]) -> (r: String)
    ensures
        r@ == v@,
{
    let mut r = String::new();
    let mut i: usize = 0;
    while i < v.len()
        invariant
            i <= v.len(),
            r@ == v@.take(i as int),
        decreases v.len() - i,
    {
        r.push(v[i]);
        i = i + 1;
    }
    assert(v@.take(v@.len() as int) == v@);
    r
}

/// A new list holding the given characters.
pub fn copy_chars(v: &[char]) -> (r: Vec<char>)
    ensures
        r@ == v@,
{
    let mut r: Vec<char> = Vec::new();
    append_chars(&mut r, v);
    assert(Seq::<char>::empty() + v@ == v@);
    r
}

/// Adds characters at the end of a list.
pub fn append_chars(out: &mut Vec<char>, v: &[char])
    ensures
        final(out)@ == old(out)@ + v@,
{
    let mut i: usize = 0;
    while i < v.len()
        invariant
            i <= v.len(),
            out@ == old(out)@ + v@.take(i as int),
        decreases v.len() - i,
    {
        out.push(v[i]);
        i = i + 1;
        assert(v@.take(i as int) == v@.take(i as int - 1).push(v@[i as int - 1]));
    }
    assert(v@.take(v@.len() as int) == v@);
}

/// Whether two texts are the same.
pub fn same_chars(a: &[char], b: &[char]) -> (r: bool)
    ensures
        r == (a@ == b@),
{
    if a.len() != b.len() {
        return false;
    }
    let mut i: usize = 0;
    while i < a.len()
        invariant
            i <= a.len(),
            a.len() == b.len(),
            forall|j: int| 0 <= j < i ==> a@[j] == b@[j],
        decreases a.len() - i,
    {
        if a[i] != b[i] {
            return false;
        }
        i = i + 1;
    }
    assert(a@ =~= b@);
    true
}

/// Whether two strings are the same.
pub fn same_str(a: &str, b: &str) -> (r: bool)
    ensures
        r == (a@ == b@),
{
    let x = to_chars(a);
    let y = to_chars(b);
    same_chars(&x, &y)
}

// ---------------------------------------------------------------------------
// White space
// ---------------------------------------------------------------------------

/// The characters with the Unicode property `White_Space`.
pub open spec fn is_white(c: char) -> bool {
    ||| '\u{9}' <= c <= '\u{d}'
    ||| c == ' '
    ||| c == '\u{85}'
    ||| c == '\u{a0}'
    ||| c == '\u{1680}'
    ||| '\u{2000}' <= c <= '\u{200a}'
    ||| c == '\u{2028}'
    ||| c == '\u{2029}'
    ||| c == '\u{202f}'
    ||| c == '\u{205f}'
    ||| c == '\u{3000}'
}

/// Whether a character has the Unicode property `White_Space`.
pub fn is_white_space(c: char) -> (r: bool)
    ensures
        r == is_white(c),
{
    ('\u{9}' <= c && c <= '\u{d}') || c == ' ' || c == '\u{85}' || c == '\u{a0}' || c
        == '\u{1680}' || ('\u{2000}' <= c && c <= '\u{200a}') || c == '\u{2028}' || c == '\u{2029}'
        || c == '\u{202f}' || c == '\u{205f}' || c == '\u{3000}'
}

/// The text without the white space at its start.
pub open spec fn trim_start(s: Seq<char>) -> Seq<char>
    decreases s.len(),
{
    if s.len() > 0 && is_white(s[0]) {
        trim_start(s.drop_first())
    } else {
        s
    }
}

/// The text without the white space at its end.
pub open spec fn trim_end(s: Seq<char>) -> Seq<char>
    decreases s.len(),
{
    if s.len() > 0 && is_white(s.last()) {
        trim_end(s.drop_last())
    } else {
        s
    }
}

/// The text without the white space at either end.
pub open spec fn trim(s: Seq<char>) -> Seq<char> {
    trim_end(trim_start(s))
}

pub proof fn lemma_trim_end(s: Seq<char>)
    ensures
        trim_end(s).len() <= s.len(),
        trim_end(s) == s.take(trim_end(s).len() as int),
        trim_end(s).len() > 0 ==> !is_white(trim_end(s).last()),
        forall|i: int| trim_end(s).len() <= i < s.len() ==> is_white(#[trigger] s[i]),
    decreases s.len(),
{
    if s.len() > 0 && is_white(s.last()) {
        lemma_trim_end(s.drop_last());
        let n = trim_end(s).len() as int;
        assert(s.drop_last().take(n) == s.take(n));
        assert forall|i: int| n <= i < s.len() implies is_white(#[trigger] s[i]) by {
            if i < s.len() - 1 {
                assert(s.drop_last()[i] == s[i]);
            }
        }
    } else {
        assert(s.take(s.len() as int) == s);
    }
}

pub proof fn lemma_trim_start(s: Seq<char>)
    ensures
        trim_start(s).len() <= s.len(),
        trim_start(s) == s.skip(s.len() - trim_start(s).len()),
        trim_start(s).len() > 0 ==> !is_white(trim_start(s)[0]),
        forall|i: int| 0 <= i < s.len() - trim_start(s).len() ==> is_white(#[trigger] s[i]),
    decreases s.len(),
{
    if s.len() > 0 && is_white(s[0]) {
        lemma_trim_start(s.drop_first());
        let n = s.len() - trim_start(s).len();
        assert(s.drop_first().skip(n - 1) == s.skip(n));
        assert forall|i: int| 0 <= i < n implies is_white(#[trigger] s[i]) by {
            if i > 0 {
                assert(s.drop_first()[i - 1] == s[i]);
            }
        }
    } else {
        assert(s.skip(0) == s);
    }
}

/// Computes [`trim_start`].
pub fn trimmed_start(s: &[char]) -> (r: &[char])
    ensures
        r@ == trim_start(s@),
{
    let mut i: usize = 0;
    assert(s@.skip(0) == s@);
    while i < s.len() && is_white_space(s[i])
        invariant
            i <= s.len(),
            trim_start(s@) == trim_start(s@.skip(i as int)),
        decreases s.len() - i,
    {
        assert(s@.skip(i as int).drop_first() == s@.skip(i as int + 1));
        i = i + 1;
    }
    vstd::slice::slice_subrange(s, i, s.len())
}

/// Computes [`trim_end`].
pub fn trimmed_end(s: &[char]) -> (r: &[char])
    ensures
        r@ == trim_end(s@),
{
    let mut n: usize = s.len();
    assert(s@.take(n as int) == s@);
    while n > 0 && is_white_space(s[n - 1])
        invariant
            n <= s.len(),
            trim_end(s@) == trim_end(s@.take(n as int)),
        decreases n,
    {
        assert(s@.take(n as int).drop_last() == s@.take(n as int - 1));
        n = n - 1;
    }
    vstd::slice::slice_subrange(s, 0, n)
}

/// Computes [`trim`].
pub fn trimmed(s: &[char]) -> (r: &[char])
    ensures
        r@ == trim(s@),
{
    trimmed_end(trimmed_start(s))
}

// ---------------------------------------------------------------------------
// Lines
// ---------------------------------------------------------------------------

/// Number of characters of the first line, its line feed included.
pub open spec fn first_line_len(s: Seq<char>) -> nat
    decreases s.len(),
{
    if s.len() == 0 {
        0
    } else if s[0] == '\n' {
        1
    } else {
        1 + first_line_len(s.drop_first())
    }
}

/// The lines of a text, each with its line feed where it has one.
pub open spec fn raw_lines(s: Seq<char>) -> Seq<Seq<char>>
    decreases s.len(),
{
    if s.len() == 0 {
        Seq::empty()
    } else {
        let n = first_line_len(s) as int;
        if 0 < n <= s.len() {
            seq![s.take(n)] + raw_lines(s.skip(n))
        } else {
            seq![s]
        }
    }
}

/// The line without its line feed, and without a carriage return before that.
pub open spec fn strip_eol(line: Seq<char>) -> Seq<char> {
    if line.len() > 0 && line.last() == '\n' {
        let l = line.drop_last();
        if l.len() > 0 && l.last() == '\r' {
            l.drop_last()
        } else {
            l
        }
    } else {
        line
    }
}

/// All parts one after the other.
pub open spec fn concat(parts: Seq<Seq<char>>) -> Seq<char>
    decreases parts.len(),
{
    if parts.len() == 0 {
        Seq::empty()
    } else {
        parts[0] + concat(parts.drop_first())
    }
}

/// The texts that a list of character lists holds.
pub open spec fn texts(v: Seq<Vec<char>>) -> Seq<Seq<char>> {
    v.map_values(|x: Vec<char>| x@)
}

/// The texts that a list of strings holds.
pub open spec fn strings(v: Seq<String>) -> Seq<Seq<char>> {
    v.map_values(|x: String| x@)
}

pub proof fn lemma_first_line_len(s: Seq<char>)
    requires
        s.len() > 0,
    ensures
        0 < first_line_len(s) <= s.len(),
        forall|i: int| 0 <= i < first_line_len(s) - 1 ==> s[i] != '\n',
        s[first_line_len(s) - 1] == '\n' || first_line_len(s) == s.len(),
    decreases s.len(),
{
    reveal_with_fuel(first_line_len, 2);
    if s[0] != '\n' && s.len() > 1 {
        lemma_first_line_len(s.drop_first());
        let n = first_line_len(s);
        let d = s.drop_first();
        assert forall|i: int| 0 <= i < n - 1 implies s[i] != '\n' by {
            if i > 0 {
                assert(d[i - 1] != '\n');
            }
        }
        assert(d[first_line_len(d) - 1] == s[n - 1]);
    }
}

pub proof fn lemma_first_line_len_is(s: Seq<char>, n: nat)
    requires
        0 < n <= s.len(),
        forall|i: int| 0 <= i < n - 1 ==> s[i] != '\n',
        s[n - 1] == '\n' || n == s.len(),
    ensures
        first_line_len(s) == n,
    decreases s.len(),
{
    reveal_with_fuel(first_line_len, 2);
    if s[0] != '\n' && s.len() > 1 {
        let d = s.drop_first();
        assert forall|i: int| 0 <= i < n - 1 - 1 implies d[i] != '\n' by {
            assert(s[i + 1] != '\n');
        }
        if n > 1 {
            assert(d[n - 2] == s[n - 1]);
            lemma_first_line_len_is(d, (n - 1) as nat);
        }
    }
}

/// Putting the lines of a text one after the other gives the text back.
pub proof fn lemma_concat_raw_lines(s: Seq<char>)
    ensures
        concat(raw_lines(s)) == s,
    decreases s.len(),
{
    if s.len() > 0 {
        lemma_first_line_len(s);
        let n = first_line_len(s) as int;
        lemma_concat_raw_lines(s.skip(n));
        assert(raw_lines(s).drop_first() == raw_lines(s.skip(n)));
        assert(s.take(n) + s.skip(n) == s);
    }
}

/// Lines of a text that ends with a line feed stay the same when more text follows.
pub proof fn lemma_raw_lines_add(a: Seq<char>, b: Seq<char>)
    requires
        a.len() == 0 || a.last() == '\n',
    ensures
        raw_lines(a + b) == raw_lines(a) + raw_lines(b),
    decreases a.len(),
{
    if a.len() == 0 {
        assert(a + b =~= b);
        assert(raw_lines(a) + raw_lines(b) =~= raw_lines(b));
    } else {
        let n = first_line_len(a);
        lemma_first_line_len(a);
        let s = a + b;
        assert(s[n - 1] == '\n');
        assert forall|i: int| 0 <= i < n - 1 implies s[i] != '\n' by {
            assert(a[i] != '\n');
        }
        lemma_first_line_len_is(s, n);
        let rest = a.skip(n as int);
        if rest.len() > 0 {
            assert(rest.last() == a.last());
        }
        lemma_raw_lines_add(rest, b);
        assert(s.skip(n as int) =~= rest + b);
        assert(s.take(n as int) =~= a.take(n as int));
        assert(seq![a.take(n as int)] + (raw_lines(rest) + raw_lines(b)) =~= (seq![a.take(n as int)]
            + raw_lines(rest)) + raw_lines(b));
    }
}

/// A text without a line feed before its end is one line.
pub proof fn lemma_raw_lines_single(s: Seq<char>)
    requires
        s.len() > 0,
        forall|i: int| 0 <= i < s.len() - 1 ==> s[i] != '\n',
    ensures
        raw_lines(s) == seq![s],
{
    lemma_first_line_len_is(s, s.len());
    assert(s.take(s.len() as int) =~= s);
    assert(s.skip(s.len() as int).len() == 0);
    reveal_with_fuel(raw_lines, 2);
    assert(raw_lines(s) =~= seq![s]);
}

/// The first lines of a text are the lines of what they make up.
pub proof fn lemma_raw_lines_take(s: Seq<char>, k: nat)
    requires
        k <= raw_lines(s).len(),
    ensures
        raw_lines(concat(raw_lines(s).take(k as int))) == raw_lines(s).take(k as int),
    decreases k,
{
    let all = raw_lines(s);
    let first = all.take(k as int);
    if k == 0 {
        assert(first =~= Seq::<Seq<char>>::empty());
        assert(raw_lines(concat(first)) =~= first);
    } else {
        let n = first_line_len(s) as int;
        lemma_first_line_len(s);
        let line = s.take(n);
        let rest = s.skip(n);
        assert(all =~= seq![line] + raw_lines(rest));
        assert(first[0] == line);
        assert(first.drop_first() =~= raw_lines(rest).take(k - 1));
        lemma_raw_lines_take(rest, (k - 1) as nat);
        lemma_raw_lines_single(line);
        let tail = concat(first.drop_first());
        if k == 1 {
            assert(first.drop_first().len() == 0);
            assert(line + tail =~= line);
            assert(first =~= seq![line]);
        } else {
            assert(rest.len() > 0);
            assert(line.last() == '\n');
            lemma_raw_lines_add(line, tail);
            assert(first =~= seq![line] + first.drop_first());
        }
    }
}

pub proof fn lemma_concat_add(a: Seq<Seq<char>>, b: Seq<Seq<char>>)
    ensures
        concat(a + b) == concat(a) + concat(b),
    decreases a.len(),
{
    if a.len() == 0 {
        assert(a + b == b);
        assert(concat(a) + concat(b) == concat(b));
    } else {
        assert((a + b).drop_first() == a.drop_first() + b);
        lemma_concat_add(a.drop_first(), b);
        assert(a[0] + (concat(a.drop_first()) + concat(b)) == (a[0] + concat(a.drop_first()))
            + concat(b));
    }
}

/// Computes [`raw_lines`].
pub fn split_lines(s: &[char]) -> (r: Vec<Vec<char>>)
    ensures
        texts(r@) == raw_lines(s@),
{
    let mut r: Vec<Vec<char>> = Vec::new();
    let mut start: usize = 0;
    let mut i: usize = 0;
    assert(s@.skip(0) == s@);
    while i < s.len()
        invariant
            start <= i <= s.len(),
            forall|j: int| start <= j < i ==> s@[j] != '\n',
            raw_lines(s@) == texts(r@) + raw_lines(s@.skip(start as int)),
        decreases s.len() - i,
    {
        if s[i] == '\n' {
            let line = copy_chars(vstd::slice::slice_subrange(s, start, i + 1));
            proof {
                let rest = s@.skip(start as int);
                let n = (i + 1 - start) as nat;
                lemma_first_line_len_is(rest, n);
                assert(rest.take(n as int) == line@);
                assert(rest.skip(n as int) == s@.skip(i as int + 1));
            }
            let ghost before = r@;
            r.push(line);
            assert(texts(r@) == texts(before).push(line@));
            i = i + 1;
            start = i;
        } else {
            i = i + 1;
        }
    }
    if start < s.len() {
        let line = copy_chars(vstd::slice::slice_subrange(s, start, s.len()));
        proof {
            let rest = s@.skip(start as int);
            lemma_first_line_len_is(rest, rest.len());
            assert(rest.take(rest.len() as int) == line@);
            assert(rest.skip(rest.len() as int).len() == 0);
            reveal_with_fuel(raw_lines, 2);
            assert(raw_lines(rest) == seq![line@]);
        }
        let ghost before = r@;
        r.push(line);
        assert(texts(r@) == texts(before).push(line@));
        assert(texts(r@) == raw_lines(s@));
    } else {
        assert(s@.skip(start as int).len() == 0);
        assert(texts(r@) == raw_lines(s@));
    }
    r
}

/// Computes [`strip_eol`].
pub fn without_eol(line: &[char]) -> (r: &[char])
    ensures
        r@ == strip_eol(line@),
{
    let n = line.len();
    if n > 0 && line[n - 1] == '\n' {
        if n > 1 && line[n - 2] == '\r' {
            vstd::slice::slice_subrange(line, 0, n - 2)
        } else {
            vstd::slice::slice_subrange(line, 0, n - 1)
        }
    } else {
        vstd::slice::slice_subrange(line, 0, n)
    }
}

/// Adds the parts `from..to` at the end of a text.
pub fn append_parts(out: &mut Vec<char>, parts: &Vec<Vec<char>>, from: usize, to: usize)
    requires
        from <= to <= parts.len(),
    ensures
        final(out)@ == old(out)@ + concat(texts(parts@).subrange(from as int, to as int)),
{
    let mut k: usize = from;
    assert(texts(parts@).subrange(from as int, from as int).len() == 0);
    while k < to
        invariant
            from <= k <= to <= parts.len(),
            out@ == old(out)@ + concat(texts(parts@).subrange(from as int, k as int)),
        decreases to - k,
    {
        append_chars(out, &parts[k]);
        proof {
            let t = texts(parts@);
            let a = t.subrange(from as int, k as int);
            let b = seq![t[k as int]];
            lemma_concat_add(a, b);
            reveal_with_fuel(concat, 2);
            assert(concat(b) == t[k as int]);
            assert(a + b == t.subrange(from as int, k as int + 1));
        }
        k = k + 1;
    }
}

// ---------------------------------------------------------------------------
// Searching and splitting
// ---------------------------------------------------------------------------

/// Place of the first occurrence of `p` in `s`.
pub open spec fn find(s: Seq<char>, p: Seq<char>) -> Option<nat>
    decreases s.len(),
{
    if p.is_prefix_of(s) {
        Some(0)
    } else if s.len() == 0 {
        None
    } else {
        match find(s.drop_first(), p) {
            Some(i) => Some(i + 1),
            None => None,
        }
    }
}

/// Place of the last occurrence of `p` in `s`.
pub open spec fn rfind(s: Seq<char>, p: Seq<char>) -> Option<nat>
    decreases s.len(),
{
    if p.is_suffix_of(s) {
        Some((s.len() - p.len()) as nat)
    } else if s.len() == 0 {
        None
    } else {
        rfind(s.drop_last(), p)
    }
}

/// The parts of `s` between the occurrences of `sep`, which is not empty.
pub open spec fn split(s: Seq<char>, sep: Seq<char>) -> Seq<Seq<char>>
    decreases s.len(),
{
    match find(s, sep) {
        Some(i) => if 0 < sep.len() && i + sep.len() <= s.len() {
            seq![s.take(i as int)] + split(s.skip((i + sep.len()) as int), sep)
        } else {
            seq![s]
        },
        None => seq![s],
    }
}

/// `s` with every occurrence of `from`, which is not empty, replaced from left to right.
pub open spec fn replace(s: Seq<char>, from: Seq<char>, to: Seq<char>) -> Seq<char>
    decreases s.len(),
{
    match find(s, from) {
        Some(i) => if 0 < from.len() && i + from.len() <= s.len() {
            s.take(i as int) + to + replace(s.skip((i + from.len()) as int), from, to)
        } else {
            s
        },
        None => s,
    }
}

/// The parts with a separator between each two of them.
pub open spec fn join(parts: Seq<Seq<char>>, sep: Seq<char>) -> Seq<char>
    decreases parts.len(),
{
    if parts.len() == 0 {
        Seq::empty()
    } else if parts.len() == 1 {
        parts[0]
    } else {
        join(parts.drop_last(), sep) + sep + parts.last()
    }
}

pub proof fn lemma_find(s: Seq<char>, p: Seq<char>)
    ensures
        find(s, p) matches Some(i) ==> i + p.len() <= s.len() && s.subrange(
            i as int,
            (i + p.len()) as int,
        ) == p,
    decreases s.len(),
{
    if !p.is_prefix_of(s) && s.len() > 0 {
        lemma_find(s.drop_first(), p);
        if let Some(i) = find(s.drop_first(), p) {
            assert(s.subrange((i + 1) as int, (i + 1 + p.len()) as int) == s.drop_first().subrange(
                i as int,
                (i + p.len()) as int,
            ));
        }
    }
}

pub proof fn lemma_rfind(s: Seq<char>, p: Seq<char>)
    ensures
        rfind(s, p) matches Some(i) ==> i + p.len() <= s.len() && s.subrange(
            i as int,
            (i + p.len()) as int,
        ) == p,
    decreases s.len(),
{
    if p.is_suffix_of(s) {
        assert(s.subrange(s.len() - p.len(), s.len() as int) == p);
    } else if s.len() > 0 {
        lemma_rfind(s.drop_last(), p);
        if let Some(i) = rfind(s.drop_last(), p) {
            assert(s.subrange(i as int, (i + p.len()) as int) == s.drop_last().subrange(
                i as int,
                (i + p.len()) as int,
            ));
        }
    }
}

pub proof fn lemma_find_absent(s: Seq<char>, c: char)
    requires
        !s.contains(c),
    ensures
        find(s, seq![c]) is None,
    decreases s.len(),
{
    if seq![c].is_prefix_of(s) {
        assert(s.subrange(0, 1)[0] == s[0]);
        assert(s[0] == c);
    } else if s.len() > 0 {
        let d = s.drop_first();
        if d.contains(c) {
            let i = choose|i: int| 0 <= i < d.len() && d[i] == c;
            assert(s[i + 1] == c);
        }
        lemma_find_absent(d, c);
    }
}

pub proof fn lemma_find_after(a: Seq<char>, c: char, b: Seq<char>)
    requires
        !a.contains(c),
    ensures
        find(a + seq![c] + b, seq![c]) == Some(a.len()),
    decreases a.len(),
{
    let s = a + seq![c] + b;
    if a.len() == 0 {
        assert(s.subrange(0, 1) == seq![c]);
    } else {
        assert(s[0] == a[0]);
        assert(a[0] != c);
        if seq![c].is_prefix_of(s) {
            assert(s.subrange(0, 1)[0] == s[0]);
        }
        let d = a.drop_first();
        if d.contains(c) {
            let i = choose|i: int| 0 <= i < d.len() && d[i] == c;
            assert(a[i + 1] == c);
        }
        lemma_find_after(d, c, b);
        assert(s.drop_first() == d + seq![c] + b);
    }
}

/// What stands before the first occurrence of a character does not hold the character.
pub proof fn lemma_find_first(s: Seq<char>, c: char)
    ensures
        match find(s, seq![c]) {
            Some(i) => i < s.len() && s[i as int] == c && !s.take(i as int).contains(c),
            None => !s.contains(c),
        },
    decreases s.len(),
{
    if seq![c].is_prefix_of(s) {
        assert(s.subrange(0, 1)[0] == s[0]);
    } else if s.len() > 0 {
        assert(s[0] != c) by {
            if s[0] == c {
                assert(s.subrange(0, 1) == seq![c]);
            }
        }
        let d = s.drop_first();
        lemma_find_first(d, c);
        match find(d, seq![c]) {
            Some(i) => {
                let t = s.take(i as int + 1);
                if t.contains(c) {
                    let j = choose|j: int| 0 <= j < t.len() && t[j] == c;
                    assert(d.take(i as int)[j - 1] == c);
                }
            },
            None => {
                if s.contains(c) {
                    let j = choose|j: int| 0 <= j < s.len() && s[j] == c;
                    assert(d[j - 1] == c);
                }
            },
        }
    }
}

/// No part of a text that was split at a character holds the character.
pub proof fn lemma_split_parts(s: Seq<char>, c: char)
    ensures
        forall|i: int|
            0 <= i < split(s, seq![c]).len() ==> !(#[trigger] split(s, seq![c])[i]).contains(c),
    decreases s.len(),
{
    lemma_find_first(s, c);
    if let Some(i) = find(s, seq![c]) {
        let rest = s.skip(i as int + 1);
        lemma_split_parts(rest, c);
        let all = split(s, seq![c]);
        assert forall|k: int| 0 <= k < all.len() implies !(#[trigger] all[k]).contains(c) by {
            if k > 0 {
                assert(split(rest, seq![c])[k - 1] == all[k]);
            }
        }
    }
}

pub proof fn lemma_join_front(parts: Seq<Seq<char>>, sep: Seq<char>)
    requires
        parts.len() > 1,
    ensures
        join(parts, sep) == parts[0] + sep + join(parts.drop_first(), sep),
    decreases parts.len(),
{
    let d = parts.drop_first();
    if parts.len() == 2 {
        reveal_with_fuel(join, 2);
        assert(parts.drop_last()[0] == parts[0]);
    } else {
        lemma_join_front(parts.drop_last(), sep);
        assert(parts.drop_last().drop_first() == d.drop_last());
        let m = join(d.drop_last(), sep);
        assert((parts[0] + sep + m) + sep + parts.last() == parts[0] + sep + (m + sep
            + parts.last()));
    }
}

/// Parts without the separator, put together with it, come apart into the same parts.
pub proof fn lemma_split_join(parts: Seq<Seq<char>>, c: char)
    requires
        parts.len() > 0,
        forall|i: int| 0 <= i < parts.len() ==> !(#[trigger] parts[i]).contains(c),
    ensures
        split(join(parts, seq![c]), seq![c]) == parts,
    decreases parts.len(),
{
    let s = join(parts, seq![c]);
    if parts.len() == 1 {
        lemma_find_absent(parts[0], c);
        assert(split(s, seq![c]) =~= parts);
    } else {
        let d = parts.drop_first();
        lemma_join_front(parts, seq![c]);
        assert forall|i: int| 0 <= i < d.len() implies !(#[trigger] d[i]).contains(c) by {
            assert(d[i] == parts[i + 1]);
        }
        lemma_split_join(d, c);
        lemma_find_after(parts[0], c, join(d, seq![c]));
        let n = parts[0].len() as int;
        assert(s.take(n) == parts[0]);
        assert(s.skip(n + 1) == join(d, seq![c]));
        assert(seq![parts[0]] + d =~= parts);
    }
}

/// Two texts with a separator between them are split like each of them.
pub proof fn lemma_split_add(a: Seq<char>, c: char, b: Seq<char>)
    ensures
        split(a + seq![c] + b, seq![c]) == split(a, seq![c]) + split(b, seq![c]),
    decreases a.len(),
{
    let s = a + seq![c] + b;
    lemma_find_first(a, c);
    match find(a, seq![c]) {
        None => {
            lemma_find_after(a, c, b);
            let n = a.len() as int;
            assert(s.take(n) =~= a);
            assert(s.skip(n + 1) =~= b);
            assert(split(a, seq![c]) =~= seq![a]);
        },
        Some(i) => {
            let x = a.take(i as int);
            let r = a.skip(i as int + 1);
            let rest = r + seq![c] + b;
            lemma_split_add(r, c, b);
            lemma_find_after(x, c, rest);
            assert(s =~= x + seq![c] + rest);
            assert(s.take(i as int) =~= x);
            assert(s.skip(i as int + 1) =~= rest);
            assert(split(s, seq![c]) =~= seq![x] + (split(r, seq![c]) + split(b, seq![c])));
            assert(split(a, seq![c]) =~= seq![x] + split(r, seq![c]));
        },
    }
}

/// The parts of a text, put together again, are the text.
pub proof fn lemma_join_split(s: Seq<char>, c: char)
    ensures
        split(s, seq![c]).len() > 0,
        join(split(s, seq![c]), seq![c]) == s,
    decreases s.len(),
{
    lemma_find_first(s, c);
    if let Some(i) = find(s, seq![c]) {
        let x = s.take(i as int);
        let rest = s.skip(i as int + 1);
        lemma_join_split(rest, c);
        let parts = split(s, seq![c]);
        assert(parts =~= seq![x] + split(rest, seq![c]));
        assert(parts.drop_first() =~= split(rest, seq![c]));
        lemma_join_front(parts, seq![c]);
        assert(s =~= x + seq![c] + rest);
    }
}

/// A text in which `p` occurs has a last occurrence of it.
pub proof fn lemma_rfind_some(s: Seq<char>, p: Seq<char>, i: int)
    requires
        0 <= i,
        i + p.len() <= s.len(),
        s.subrange(i, i + p.len()) == p,
    ensures
        rfind(s, p) is Some,
    decreases s.len(),
{
    if !p.is_suffix_of(s) {
        if i + p.len() == s.len() {
            assert(s.subrange(s.len() - p.len(), s.len() as int) == p);
            assert(p.is_suffix_of(s));
        } else {
            assert(s.drop_last().subrange(i, i + p.len()) == p);
            lemma_rfind_some(s.drop_last(), p, i);
        }
    }
}

pub proof fn lemma_prefix_add(p: Seq<char>, a: Seq<char>, b: Seq<char>)
    requires
        p.is_prefix_of(a),
    ensures
        p.is_prefix_of(a + b),
{
    assert((a + b).subrange(0, p.len() as int) == a.subrange(0, p.len() as int));
}

pub proof fn lemma_suffix_add(a: Seq<char>, b: Seq<char>, p: Seq<char>)
    requires
        p.is_suffix_of(b),
    ensures
        p.is_suffix_of(a + b),
{
    let s = a + b;
    assert(s.subrange(s.len() - p.len(), s.len() as int) == b.subrange(
        b.len() - p.len(),
        b.len() as int,
    ));
}

/// Whether `s` starts with `p`.
pub fn has_prefix(s: &[char], p: &[char]) -> (r: bool)
    ensures
        r == p@.is_prefix_of(s@),
{
    if p.len() > s.len() {
        return false;
    }
    let head = vstd::slice::slice_subrange(s, 0, p.len());
    same_chars(head, p)
}

/// Whether `s` ends with `p`.
pub fn has_suffix(s: &[char], p: &[char]) -> (r: bool)
    ensures
        r == p@.is_suffix_of(s@),
{
    if p.len() > s.len() {
        return false;
    }
    let tail = vstd::slice::slice_subrange(s, s.len() - p.len(), s.len());
    same_chars(tail, p)
}

/// Computes [`find`].
pub fn find_in(s: &[char], p: &[char]) -> (r: Option<usize>)
    ensures
        match r {
            Some(i) => find(s@, p@) == Some(i as nat) && i + p@.len() <= s@.len(),
            None => find(s@, p@) is None,
        },
{
    proof {
        lemma_find(s@, p@);
    }
    assert(s@.skip(0) == s@);
    let mut i: usize = 0;
    loop
        invariant
            i <= s.len(),
            match find(s@.skip(i as int), p@) {
                Some(k) => find(s@, p@) == Some((k + i) as nat),
                None => find(s@, p@) is None,
            },
            find(s@, p@) matches Some(k) ==> k + p@.len() <= s@.len(),
        decreases s.len() - i,
    {
        let rest = vstd::slice::slice_subrange(s, i, s.len());
        assert(rest@ == s@.skip(i as int));
        if has_prefix(rest, p) {
            return Some(i);
        }
        if i == s.len() {
            return None;
        }
        assert(s@.skip(i as int).drop_first() == s@.skip(i as int + 1));
        i = i + 1;
    }
}

/// Computes [`rfind`].
pub fn rfind_in(s: &[char], p: &[char]) -> (r: Option<usize>)
    ensures
        match r {
            Some(i) => rfind(s@, p@) == Some(i as nat) && i + p@.len() <= s@.len(),
            None => rfind(s@, p@) is None,
        },
{
    let mut n: usize = s.len();
    assert(s@.take(n as int) == s@);
    loop
        invariant
            n <= s.len(),
            rfind(s@, p@) == rfind(s@.take(n as int), p@),
        decreases n,
    {
        let rest = vstd::slice::slice_subrange(s, 0, n);
        assert(rest@ == s@.take(n as int));
        if has_suffix(rest, p) {
            return Some(n - p.len());
        }
        if n == 0 {
            return None;
        }
        assert(s@.take(n as int).drop_last() == s@.take(n as int - 1));
        n = n - 1;
    }
}

/// Computes [`split`].
pub fn split_on(s: &[char], sep: &[char]) -> (r: Vec<Vec<char>>)
    requires
        sep.len() > 0,
    ensures
        texts(r@) == split(s@, sep@),
        r.len() > 0,
{
    let mut r: Vec<Vec<char>> = Vec::new();
    let mut start: usize = 0;
    assert(s@.skip(0) == s@);
    assert(texts(r@) + split(s@, sep@) == split(s@, sep@));
    loop
        invariant
            start <= s.len(),
            sep.len() > 0,
            split(s@, sep@) == texts(r@) + split(s@.skip(start as int), sep@),
        decreases s.len() - start,
    {
        let rest = vstd::slice::slice_subrange(s, start, s.len());
        assert(rest@ == s@.skip(start as int));
        let ghost before = r@;
        match find_in(rest, sep) {
            Some(i) => {
                let part = copy_chars(vstd::slice::slice_subrange(rest, 0, i));
                r.push(part);
                assert(texts(r@) == texts(before).push(part@));
                assert(rest@.take(i as int) == part@);
                assert(rest@.skip(i + sep@.len()) == s@.skip(start + i + sep@.len()));
                start = start + i + sep.len();
                assert(texts(before) + (seq![part@] + split(s@.skip(start as int), sep@)) == (
                texts(before) + seq![part@]) + split(s@.skip(start as int), sep@));
                assert(texts(before) + seq![part@] == texts(r@));
            },
            None => {
                let part = copy_chars(rest);
                r.push(part);
                assert(texts(r@) == texts(before).push(part@));
                assert(texts(before) + seq![part@] == texts(r@));
                return r;
            },
        }
    }
}

/// Computes [`replace`].
pub fn replace_in(s: &[char], from: &[char], to: &[char]) -> (r: Vec<char>)
    requires
        from.len() > 0,
    ensures
        r@ == replace(s@, from@, to@),
{
    let mut r: Vec<char> = Vec::new();
    let mut start: usize = 0;
    assert(s@.skip(0) == s@);
    assert(r@ + replace(s@, from@, to@) == replace(s@, from@, to@));
    loop
        invariant
            start <= s.len(),
            from.len() > 0,
            replace(s@, from@, to@) == r@ + replace(s@.skip(start as int), from@, to@),
        decreases s.len() - start,
    {
        let rest = vstd::slice::slice_subrange(s, start, s.len());
        assert(rest@ == s@.skip(start as int));
        let ghost before = r@;
        match find_in(rest, from) {
            Some(i) => {
                append_chars(&mut r, vstd::slice::slice_subrange(rest, 0, i));
                append_chars(&mut r, to);
                start = start + i + from.len();
                proof {
                    let head = rest@.take(i as int);
                    let tail = replace(s@.skip(start as int), from@, to@);
                    assert(rest@.subrange(0, i as int) =~= head);
                    assert(rest@.skip(i + from@.len()) =~= s@.skip(start as int));
                    assert(replace(rest@, from@, to@) == head + to@ + tail);
                    assert(before + (head + to@ + tail) =~= before + head + to@ + tail);
                }
            },
            None => {
                append_chars(&mut r, rest);
                return r;
            },
        }
    }
}

/// Computes [`join`] on strings.
pub fn join_strings(parts: &Vec<String>, sep: &str) -> (r: String)
    ensures
        r@ == join(strings(parts@), sep@),
{
    let mut r = String::new();
    let mut k: usize = 0;
    while k < parts.len()
        invariant
            k <= parts.len(),
            r@ == join(strings(parts@).take(k as int), sep@),
        decreases parts.len() - k,
    {
        if k > 0 {
            r.push_str(sep);
        }
        r.push_str(&parts[k]);
        k = k + 1;
        proof {
            let t = strings(parts@).take(k as int);
            assert(t.drop_last() == strings(parts@).take(k as int - 1));
            assert(t.last() == parts@[k as int - 1]@);
            if k == 1 {
                assert(Seq::<char>::empty() + t[0] == t[0]);
            }
        }
    }
    assert(strings(parts@).take(k as int) == strings(parts@));
    r
}

/// Whether the text holds the character.
pub fn has_char(s: &[char], c: char) -> (r: bool)
    ensures
        r == s@.contains(c),
{
    let mut i: usize = 0;
    while i < s.len()
        invariant
            i <= s.len(),
            forall|j: int| 0 <= j < i ==> s@[j] != c,
        decreases s.len() - i,
    {
        if s[i] == c {
            assert(s@[i as int] == c);
            return true;
        }
        i = i + 1;
    }
    false
}

// ---------------------------------------------------------------------------
// ASCII letters
// ---------------------------------------------------------------------------

/// The small letter of an ASCII capital; every other character as it is.
pub open spec fn ascii_lower(c: char) -> char {
    if 'A' <= c <= 'Z' {
        ((c as u32 + 32) as u32) as char
    } else {
        c
    }
}

/// Whether two texts differ at most in the case of ASCII letters.
pub open spec fn eq_ignore_ascii_case(a: Seq<char>, b: Seq<char>) -> bool {
    &&& a.len() == b.len()
    &&& forall|i: int| 0 <= i < a.len() ==> ascii_lower(#[trigger] a[i]) == ascii_lower(b[i])
}

/// Whether all characters of a text are ASCII.
pub open spec fn is_ascii(s: Seq<char>) -> bool {
    forall|i: int| 0 <= i < s.len() ==> (#[trigger] s[i]) as u32 <= 127
}

/// A text with its ASCII capitals made small.
pub open spec fn ascii_lowered(s: Seq<char>) -> Seq<char> {
    s.map_values(|c: char| ascii_lower(c))
}

/// Computes [`ascii_lower`].
pub fn to_ascii_lower(c: char) -> (r: char)
    ensures
        r == ascii_lower(c),
{
    if 'A' <= c && c <= 'Z' {
        ((c as u8) + 32) as char
    } else {
        c
    }
}

/// Computes [`eq_ignore_ascii_case`].
pub fn same_ignore_ascii_case(a: &[char], b: &[char]) -> (r: bool)
    ensures
        r == eq_ignore_ascii_case(a@, b@),
{
    if a.len() != b.len() {
        return false;
    }
    let mut i: usize = 0;
    while i < a.len()
        invariant
            i <= a.len(),
            a.len() == b.len(),
            forall|j: int| 0 <= j < i ==> ascii_lower(#[trigger] a@[j]) == ascii_lower(b@[j]),
        decreases a.len() - i,
    {
        if to_ascii_lower(a[i]) != to_ascii_lower(b[i]) {
            return false;
        }
        i = i + 1;
    }
    true
}

// ---------------------------------------------------------------------------
// Order
// ---------------------------------------------------------------------------

/// Whether a text comes before another one, character by character.
pub open spec fn str_less(a: Seq<char>, b: Seq<char>) -> bool
    decreases a.len(),
{
    if b.len() == 0 {
        false
    } else if a.len() == 0 {
        true
    } else if a[0] != b[0] {
        a[0] < b[0]
    } else {
        str_less(a.drop_first(), b.drop_first())
    }
}

/// A list in ascending order without repetitions, with one more text.
pub open spec fn with_sorted(list: Seq<Seq<char>>, x: Seq<char>) -> Seq<Seq<char>>
    decreases list.len(),
{
    if list.len() == 0 || str_less(list.last(), x) {
        list.push(x)
    } else if list.last() == x {
        list
    } else {
        with_sorted(list.drop_last(), x).push(list.last())
    }
}

/// The first `k` texts in ascending order without repetitions.
pub open spec fn sorted_set(all: Seq<Seq<char>>, k: nat) -> Seq<Seq<char>>
    decreases k,
{
    if k == 0 {
        Seq::empty()
    } else {
        with_sorted(sorted_set(all, (k - 1) as nat), all[k - 1])
    }
}

/// Whether texts are in ascending order without repetitions.
pub open spec fn ascending(list: Seq<Seq<char>>) -> bool {
    forall|i: int, j: int|
        0 <= i < j < list.len() ==> str_less(#[trigger] list[i], #[trigger] list[j])
}

pub proof fn lemma_str_less_total(a: Seq<char>, b: Seq<char>)
    ensures
        str_less(a, b) || a == b || str_less(b, a),
        !(str_less(a, b) && str_less(b, a)),
        a == b ==> !str_less(a, b),
    decreases a.len(),
{
    if a.len() > 0 && b.len() > 0 && a[0] == b[0] {
        lemma_str_less_total(a.drop_first(), b.drop_first());
        if a.drop_first() == b.drop_first() {
            assert(a =~= seq![a[0]] + a.drop_first());
            assert(b =~= seq![b[0]] + b.drop_first());
        }
    } else if a.len() == 0 && b.len() == 0 {
        assert(a =~= b);
    }
}

pub proof fn lemma_str_less_trans(a: Seq<char>, b: Seq<char>, c: Seq<char>)
    requires
        str_less(a, b),
        str_less(b, c),
    ensures
        str_less(a, c),
    decreases a.len(),
{
    if a.len() > 0 && b.len() > 0 && c.len() > 0 && a[0] == b[0] && b[0] == c[0] {
        lemma_str_less_trans(a.drop_first(), b.drop_first(), c.drop_first());
    }
}

pub proof fn lemma_with_sorted(list: Seq<Seq<char>>, x: Seq<char>)
    requires
        ascending(list),
    ensures
        ascending(with_sorted(list, x)),
        forall|y: Seq<char>| #[trigger]
            with_sorted(list, x).contains(y) <==> list.contains(y) || y == x,
    decreases list.len(),
{
    let r = with_sorted(list, x);
    if list.len() == 0 || str_less(list.last(), x) {
        assert forall|i: int, j: int| 0 <= i < j < r.len() implies str_less(
            #[trigger] r[i],
            #[trigger] r[j],
        ) by {
            if j == list.len() && i < list.len() - 1 {
                lemma_str_less_trans(list[i], list[list.len() - 1], x);
            }
        }
        assert forall|y: Seq<char>| #[trigger] r.contains(y) <==> list.contains(y) || y == x by {
            if list.contains(y) {
                let i = choose|i: int| 0 <= i < list.len() && list[i] == y;
                assert(r[i] == y);
            }
            assert(r[r.len() - 1] == x);
        }
    } else if list.last() == x {
        assert(list[list.len() - 1] == x);
    } else {
        let d = list.drop_last();
        let l = list.last();
        assert(ascending(d));
        lemma_with_sorted(d, x);
        lemma_str_less_total(l, x);
        let s = with_sorted(d, x);
        assert forall|i: int, j: int| 0 <= i < j < r.len() implies str_less(
            #[trigger] r[i],
            #[trigger] r[j],
        ) by {
            if j == s.len() {
                assert(s.contains(s[i]));
                if s[i] != x {
                    let q = choose|q: int| 0 <= q < d.len() && d[q] == s[i];
                    assert(str_less(list[q], list[list.len() - 1]));
                }
            } else {
                assert(r[i] == s[i] && r[j] == s[j]);
            }
        }
        assert forall|y: Seq<char>| #[trigger] r.contains(y) <==> list.contains(y) || y == x by {
            if r.contains(y) {
                let i = choose|i: int| 0 <= i < r.len() && r[i] == y;
                if i < s.len() {
                    assert(s.contains(y));
                    if y != x {
                        let q = choose|q: int| 0 <= q < d.len() && d[q] == y;
                        assert(list[q] == y);
                    }
                } else {
                    assert(list[list.len() - 1] == y);
                }
            }
            if list.contains(y) || y == x {
                if y == l {
                    assert(r[r.len() - 1] == y);
                } else {
                    if list.contains(y) {
                        let q = choose|q: int| 0 <= q < list.len() && list[q] == y;
                        assert(d[q] == y);
                    }
                    assert(s.contains(y));
                    let q = choose|q: int| 0 <= q < s.len() && s[q] == y;
                    assert(r[q] == y);
                }
            }
        }
    }
}

/// Sorting texts without repetitions keeps exactly the texts that were there.
pub proof fn lemma_sorted_set(all: Seq<Seq<char>>, k: nat)
    requires
        k <= all.len(),
    ensures
        ascending(sorted_set(all, k)),
        forall|y: Seq<char>| #[trigger]
            sorted_set(all, k).contains(y) <==> all.take(k as int).contains(y),
    decreases k,
{
    if k > 0 {
        let before = sorted_set(all, (k - 1) as nat);
        lemma_sorted_set(all, (k - 1) as nat);
        lemma_with_sorted(before, all[k - 1]);
        let t = all.take(k as int);
        let u = all.take(k as int - 1);
        assert forall|y: Seq<char>| #[trigger] sorted_set(all, k).contains(y) <==> t.contains(
            y,
        ) by {
            if t.contains(y) {
                let i = choose|i: int| 0 <= i < t.len() && t[i] == y;
                if i < k - 1 {
                    assert(u[i] == y);
                }
            }
            if u.contains(y) {
                let i = choose|i: int| 0 <= i < u.len() && u[i] == y;
                assert(t[i] == y);
            }
            assert(t[k - 1] == all[k - 1]);
        }
    }
}

/// Computes [`str_less`].
pub fn comes_before(a: &[char], b: &[char]) -> (r: bool)
    ensures
        r == str_less(a@, b@),
{
    let mut i: usize = 0;
    assert(a@.skip(0) =~= a@);
    assert(b@.skip(0) =~= b@);
    loop
        invariant
            i <= a.len(),
            i <= b.len(),
            str_less(a@, b@) == str_less(a@.skip(i as int), b@.skip(i as int)),
        decreases a.len() - i,
    {
        if i == b.len() {
            return false;
        }
        if i == a.len() {
            return true;
        }
        if a[i] != b[i] {
            return a[i] < b[i];
        }
        assert(a@.skip(i as int).drop_first() =~= a@.skip(i as int + 1));
        assert(b@.skip(i as int).drop_first() =~= b@.skip(i as int + 1));
        i = i + 1;
    }
}

/// Computes [`with_sorted`].
pub fn insert_sorted(list: &mut Vec<String>, x: String)
    ensures
        strings(final(list)@) == with_sorted(strings(old(list)@), x@),
{
    let chars = to_chars(&x);
    let ghost all = strings(list@);
    let mut i: usize = list.len();
    assert(all.take(i as int) =~= all);
    assert(with_sorted(all, x@) + all.skip(i as int) =~= with_sorted(all, x@));
    while i > 0
        invariant
            i <= list.len(),
            all == strings(list@),
            all == strings(old(list)@),
            *old(list) == *list,
            chars@ == x@,
            with_sorted(all, x@) == with_sorted(all.take(i as int), x@) + all.skip(i as int),
        ensures
            i <= list.len(),
            i > 0 ==> str_less(all[i - 1], x@),
        decreases i,
    {
        let here = to_chars(&list[i - 1]);
        let ghost head = all.take(i as int);
        assert(head.last() == here@ && all[i - 1] == here@);
        if comes_before(&here, &chars) {
            break;
        }
        if same_chars(&here, &chars) {
            assert(with_sorted(head, x@) == head);
            assert(head + all.skip(i as int) =~= all);
            return;
        }
        proof {
            assert(head.drop_last() =~= all.take(i as int - 1));
            assert(with_sorted(head, x@) + all.skip(i as int) =~= with_sorted(head.drop_last(), x@)
                + all.skip(i as int - 1));
        }
        i = i - 1;
    }
    proof {
        let head = all.take(i as int);
        if i > 0 {
            assert(head.last() == all[i as int - 1]);
        }
        assert(with_sorted(head, x@) == head.push(x@));
        assert(all.insert(i as int, x@) =~= head.push(x@) + all.skip(i as int));
    }
    list.insert(i, x);
    assert(strings(list@) =~= all.insert(i as int, x@));
}

/// Sorts texts and drops repetitions.
pub fn sort_unique(all: &Vec<String>) -> (r: Vec<String>)
    ensures
        strings(r@) == sorted_set(strings(all@), all.len() as nat),
{
    let ghost a = strings(all@);
    let mut r: Vec<String> = Vec::new();
    assert(strings(r@) =~= Seq::<Seq<char>>::empty());
    let mut k: usize = 0;
    while k < all.len()
        invariant
            k <= all.len(),
            a == strings(all@),
            strings(r@) == sorted_set(a, k as nat),
        decreases all.len() - k,
    {
        assert(a[k as int] == all@[k as int]@);
        insert_sorted(&mut r, all[k].clone());
        k = k + 1;
    }
    r
}

// ---------------------------------------------------------------------------
// Letter case
// ---------------------------------------------------------------------------

/// The small letters of a text, by the rules of Unicode.
pub uninterp spec fn lower(s: Seq<char>) -> Seq<char>;

/// `str::to_lowercase` of the standard library: what comes out depends on the text alone. A text
/// that is all ASCII comes out with its capitals made small.
#[verifier::external_body]
pub(crate) fn lowercase(s: &str) -> (r: String)
    ensures
        r@ == lower(s@),
        is_ascii(s@) ==> r@ == ascii_lowered(s@),
{
    s.to_lowercase()
}

// ---------------------------------------------------------------------------
// Bytes
// ---------------------------------------------------------------------------

/// Number of bytes of the UTF-8 form of a text.
pub open spec fn byte_len(s: Seq<char>) -> nat {
    vstd::utf8::encode_utf8(s).len()
}

pub proof fn lemma_byte_len_add(a: Seq<char>, b: Seq<char>)
    ensures
        byte_len(a + b) == byte_len(a) + byte_len(b),
    decreases a.len(),
{
    if a.len() == 0 {
        assert(a + b == b);
    } else {
        assert((a + b).drop_first() == a.drop_first() + b);
        lemma_byte_len_add(a.drop_first(), b);
    }
}

pub proof fn lemma_byte_len_push(a: Seq<char>, c: char)
    ensures
        byte_len(a.push(c)) == byte_len(a) + vstd::utf8::encode_scalar(c as u32).len(),
{
    lemma_byte_len_add(a, seq![c]);
    assert(a + seq![c] == a.push(c));
    reveal_with_fuel(vstd::utf8::encode_utf8, 2);
}

pub proof fn lemma_byte_len_prefix(s: Seq<char>, n: int)
    requires
        0 <= n <= s.len(),
    ensures
        byte_len(s.take(n)) <= byte_len(s),
        byte_len(s.take(n)) + byte_len(s.skip(n)) == byte_len(s),
{
    lemma_byte_len_add(s.take(n), s.skip(n));
    assert(s.take(n) + s.skip(n) == s);
}

/// Number of bytes of the UTF-8 form of a character.
pub fn char_width(c: char) -> (r: usize)
    ensures
        r == vstd::utf8::encode_scalar(c as u32).len(),
        1 <= r <= 4,
{
    proof {
        vstd::utf8::char_is_scalar(c);
    }
    let u: u32 = c as u32;
    if u < 0x80 {
        1
    } else if u < 0x800 {
        2
    } else if u < 0x10000 {
        3
    } else {
        4
    }
}

/// Computes [`byte_len`].
pub fn byte_count(s: &[char]) -> (r: usize)
    requires
        byte_len(s@) <= usize::MAX,
    ensures
        r == byte_len(s@),
{
    let mut n: usize = 0;
    let mut i: usize = 0;
    while i < s.len()
        invariant
            i <= s.len(),
            n == byte_len(s@.take(i as int)),
            byte_len(s@) <= usize::MAX,
        decreases s.len() - i,
    {
        proof {
            lemma_byte_len_push(s@.take(i as int), s@[i as int]);
            assert(s@.take(i as int).push(s@[i as int]) == s@.take(i as int + 1));
            lemma_byte_len_prefix(s@, i as int + 1);
        }
        n = n + char_width(s[i]);
        i = i + 1;
    }
    assert(s@.take(i as int) == s@);
    n
}

/// Number of characters that start before a byte.
pub open spec fn chars_before(s: Seq<char>, byte: int) -> nat
    decreases s.len(),
{
    if s.len() == 0 || byte <= 0 {
        0
    } else {
        1 + chars_before(s.drop_first(), byte - vstd::utf8::encode_scalar(s[0] as u32).len())
    }
}

/// Number of characters that end at a byte or before it.
pub open spec fn chars_within(s: Seq<char>, byte: int) -> nat
    decreases s.len(),
{
    if s.len() == 0 || byte < vstd::utf8::encode_scalar(s[0] as u32).len() {
        0
    } else {
        1 + chars_within(s.drop_first(), byte - vstd::utf8::encode_scalar(s[0] as u32).len())
    }
}

/// The part of a text between two bytes; a character that the range cuts is taken whole at the
/// end and left out at the start.
pub open spec fn byte_slice(s: Seq<char>, from: int, to: int) -> Seq<char> {
    s.subrange(chars_before(s, from) as int, chars_before(s, to) as int)
}

pub proof fn lemma_chars_before(s: Seq<char>, a: int, b: int)
    requires
        a <= b,
    ensures
        chars_before(s, a) <= chars_before(s, b) <= s.len(),
    decreases s.len(),
{
    if s.len() > 0 && b > 0 {
        let w = vstd::utf8::encode_scalar(s[0] as u32).len();
        lemma_chars_before(s.drop_first(), a - w, b - w);
    }
}

pub proof fn lemma_chars_within(s: Seq<char>, a: int, b: int)
    requires
        a <= b,
    ensures
        chars_within(s, a) <= chars_before(s, b) <= s.len(),
    decreases s.len(),
{
    if s.len() > 0 {
        let w = vstd::utf8::encode_scalar(s[0] as u32).len();
        vstd::utf8::char_is_scalar(s[0]);
        if b > 0 {
            lemma_chars_within(s.drop_first(), a - w, b - w);
        }
    }
}

/// Computes [`chars_before`].
pub fn char_index(s: &[char], byte: usize) -> (r: usize)
    ensures
        r == chars_before(s@, byte as int),
        r <= s.len(),
{
    let mut left: usize = byte;
    let mut i: usize = 0;
    assert(s@.skip(0) =~= s@);
    while i < s.len() && left > 0
        invariant
            i <= s.len(),
            chars_before(s@, byte as int) == i + chars_before(s@.skip(i as int), left as int),
        decreases s.len() - i,
    {
        let w = char_width(s[i]);
        assert(s@.skip(i as int).drop_first() =~= s@.skip(i as int + 1));
        proof {
            if left < w {
                lemma_chars_before_zero(s@.skip(i as int + 1), left - w);
            }
        }
        left = if left < w {
            0
        } else {
            left - w
        };
        i = i + 1;
    }
    i
}

proof fn lemma_chars_before_zero(s: Seq<char>, byte: int)
    requires
        byte <= 0,
    ensures
        chars_before(s, byte) == 0,
{
}

/// Computes [`chars_within`].
pub fn char_index_within(s: &[char], byte: usize) -> (r: usize)
    ensures
        r == chars_within(s@, byte as int),
        r <= s.len(),
{
    let mut left: usize = byte;
    let mut i: usize = 0;
    assert(s@.skip(0) =~= s@);
    while i < s.len()
        invariant
            i <= s.len(),
            chars_within(s@, byte as int) == i + chars_within(s@.skip(i as int), left as int),
        decreases s.len() - i,
    {
        let w = char_width(s[i]);
        assert(s@.skip(i as int).drop_first() =~= s@.skip(i as int + 1));
        if left < w {
            return i;
        }
        left = left - w;
        i = i + 1;
    }
    i
}

// ---------------------------------------------------------------------------
// Words and numbers
// ---------------------------------------------------------------------------

/// Number of characters before the first white space.
pub open spec fn word_len(s: Seq<char>) -> nat
    decreases s.len(),
{
    if s.len() == 0 || is_white(s[0]) {
        0
    } else {
        1 + word_len(s.drop_first())
    }
}

/// The parts of a text between white space.
pub open spec fn words(s: Seq<char>) -> Seq<Seq<char>>
    decreases s.len(),
{
    if s.len() == 0 {
        Seq::empty()
    } else if is_white(s[0]) {
        words(s.drop_first())
    } else {
        let n = word_len(s);
        if 0 < n <= s.len() {
            seq![s.take(n as int)] + words(s.skip(n as int))
        } else {
            Seq::empty()
        }
    }
}

proof fn lemma_word_len(s: Seq<char>, n: nat)
    requires
        n <= s.len(),
        forall|i: int| 0 <= i < n ==> !is_white(#[trigger] s[i]),
        n == s.len() || is_white(s[n as int]),
    ensures
        word_len(s) == n,
    decreases n,
{
    if n > 0 {
        let d = s.drop_first();
        assert forall|i: int| 0 <= i < n - 1 implies !is_white(#[trigger] d[i]) by {
            assert(d[i] == s[i + 1]);
        }
        assert(!is_white(s[0]));
        lemma_word_len(d, (n - 1) as nat);
    }
}

/// Computes [`words`].
pub fn split_words(s: &[char]) -> (r: Vec<Vec<char>>)
    ensures
        texts(r@) == words(s@),
{
    let mut r: Vec<Vec<char>> = Vec::new();
    assert(s@.skip(0) =~= s@);
    assert(texts(r@) + words(s@) =~= words(s@));
    let mut i: usize = 0;
    let n = s.len();
    while i < n
        invariant
            i <= n,
            n == s.len(),
            words(s@) == texts(r@) + words(s@.skip(i as int)),
        decreases n - i,
    {
        let ghost rest = s@.skip(i as int);
        if is_white_space(s[i]) {
            assert(rest.drop_first() =~= s@.skip(i as int + 1));
            i = i + 1;
        } else {
            let start = i;
            while i < n && !is_white_space(s[i])
                invariant
                    start <= i <= n,
                    n == s.len(),
                    forall|j: int| start <= j < i ==> !is_white(#[trigger] s@[j]),
                    i == start ==> i < n && !is_white(s@[i as int]),
                ensures
                    start < i <= n,
                    forall|j: int| start <= j < i ==> !is_white(#[trigger] s@[j]),
                    i == n || is_white(s@[i as int]),
                decreases n - i,
            {
                i = i + 1;
            }
            let word = copy_chars(vstd::slice::slice_subrange(s, start, i));
            proof {
                let m = (i - start) as nat;
                assert forall|j: int| 0 <= j < m implies !is_white(#[trigger] rest[j]) by {
                    assert(rest[j] == s@[start + j]);
                }
                lemma_word_len(rest, m);
                assert(rest.take(m as int) =~= word@);
                assert(rest.skip(m as int) =~= s@.skip(i as int));
            }
            let ghost before = r@;
            r.push(word);
            assert(texts(r@) =~= texts(before).push(word@));
            assert(texts(before) + (seq![word@] + words(s@.skip(i as int))) =~= texts(r@) + words(
                s@.skip(i as int),
            ));
        }
    }
    assert(s@.skip(i as int).len() == 0);
    assert(texts(r@) + words(s@.skip(i as int)) =~= texts(r@));
    r
}

/// Whether a character is a decimal digit of ASCII.
pub open spec fn is_digit(c: char) -> bool {
    '0' <= c <= '9'
}

/// The number that decimal digits write; nothing if there is no digit or something else.
pub open spec fn digits_value(s: Seq<char>) -> Option<nat>
    decreases s.len(),
{
    if s.len() == 0 || !is_digit(s.last()) {
        None
    } else if s.len() == 1 {
        Some((s[0] as nat - '0' as nat) as nat)
    } else {
        match digits_value(s.drop_last()) {
            Some(n) => Some((n * 10 + (s.last() as nat - '0' as nat)) as nat),
            None => None,
        }
    }
}

/// The number that a text writes in decimal digits, with or without a `+` before them.
pub open spec fn unsigned_value(s: Seq<char>) -> Option<nat> {
    if s.len() > 0 && s[0] == '+' {
        digits_value(s.drop_first())
    } else {
        digits_value(s)
    }
}

proof fn lemma_digits_prefix(s: Seq<char>, k: int)
    requires
        0 < k <= s.len(),
    ensures
        digits_value(s.take(k)) is None ==> digits_value(s) is None,
        digits_value(s) matches Some(n) ==> digits_value(s.take(k)) matches Some(m) && m <= n,
    decreases s.len() - k,
{
    if k == s.len() {
        assert(s.take(k) =~= s);
    } else {
        assert(s.take(k + 1).drop_last() =~= s.take(k));
        lemma_digits_prefix(s, k + 1);
    }
}

/// Reads the number that a text writes, if it is not greater than `max`.
pub fn parse_unsigned(s: &[char], max: u64) -> (r: Option<u64>)
    ensures
        match unsigned_value(s@) {
            Some(n) => if n <= max {
                r == Some(n as u64)
            } else {
                r is None
            },
            None => r is None,
        },
{
    let n = s.len();
    if n == 0 {
        return None;
    }
    let from: usize = if s[0] == '+' {
        1
    } else {
        0
    };
    let ghost ds = s@.skip(from as int);
    assert(from == 1 ==> ds =~= s@.drop_first());
    assert(from == 0 ==> ds =~= s@);
    if from == n {
        return None;
    }
    let mut value: u64 = 0;
    let mut i: usize = from;
    while i < n
        invariant
            from <= i <= n,
            n == s.len(),
            from < n,
            ds == s@.skip(from as int),
            unsigned_value(s@) == digits_value(ds),
            i == from ==> value == 0,
            i > from ==> digits_value(ds.take(i - from)) == Some(value as nat),
            value <= max,
        decreases n - i,
    {
        let c = s[i];
        proof {
            let t = ds.take(i - from + 1);
            assert(t.drop_last() =~= ds.take(i - from));
            assert(t.last() == c);
            lemma_digits_prefix(ds, i - from + 1);
        }
        if !('0' <= c && c <= '9') {
            return None;
        }
        let digit: u64 = (c as u32 - '0' as u32) as u64;
        let next: Option<u64> = match value.checked_mul(10) {
            Some(tens) => tens.checked_add(digit),
            None => None,
        };
        match next {
            Some(v) => {
                if v > max {
                    return None;
                }
                value = v;
            },
            None => {
                return None;
            },
        }
        i = i + 1;
    }
    assert(ds.take(n - from) =~= ds);
    Some(value)
}

// ---------------------------------------------------------------------------
// Laws
// ---------------------------------------------------------------------------

/// Trimming takes white space from both ends and nothing else: what is left starts and ends with
/// something else than white space, and all that was taken away is white space.
pub proof fn law_trimmed_text(s: Seq<char>)
    ensures
        ({
            let t = trim(s);
            &&& t.len() > 0 ==> !is_white(t[0]) && !is_white(t.last())
            &&& exists|i: int| #[trigger] is_trimmed_at(s, t, i)
        }),
        trim(trim(s)) == trim(s),
{
    let a = trim_start(s);
    let t = trim_end(a);
    lemma_trim_start(s);
    lemma_trim_end(a);
    let i = s.len() - a.len();
    assert(is_trimmed_at(s, t, i)) by {
        assert(s.subrange(i, i + t.len()) =~= t);
        assert forall|j: int| i + t.len() <= j < s.len() implies is_white(#[trigger] s[j]) by {
            assert(a[j - i] == s[j]);
        }
    }
    assert(trim(s) == t);
    if t.len() > 0 {
        assert(t[0] == a[0]);
        assert(!is_white(t[0]) && !is_white(t.last()));
        lemma_trim_nothing(t);
    } else {
        assert(trim(t) == t) by {
            assert(trim_start(t) == t);
        }
    }
}

proof fn lemma_trim_nothing(t: Seq<char>)
    requires
        t.len() > 0,
        !is_white(t[0]),
        !is_white(t.last()),
    ensures
        trim_start(t) == t,
        trim_end(t) == t,
        trim(t) == t,
{
}

/// Whether a text stands in another one at a place, with nothing but white space around it.
pub open spec fn is_trimmed_at(s: Seq<char>, t: Seq<char>, i: int) -> bool {
    &&& 0 <= i
    &&& i + t.len() <= s.len()
    &&& s.subrange(i, i + t.len()) == t
    &&& forall|j: int| 0 <= j < i ==> is_white(#[trigger] s[j])
    &&& forall|j: int| i + t.len() <= j < s.len() ==> is_white(#[trigger] s[j])
}

/// White space is what Unicode says it is: among the ASCII characters the space, the tab, the
/// line feed, the vertical tab, the form feed and the carriage return, and beyond them the next
/// line, the spaces that do not break, the spaces of given widths and the separators of lines and
/// paragraphs. No letter or digit is.
pub proof fn law_white_space(c: char)
    ensures
        c as u32 <= 127 ==> (is_white(c) <==> c == ' ' || c == '\t' || c == '\n' || c == '\u{b}' || c
            == '\u{c}' || c == '\r'),
        c as u32 > 127 ==> (is_white(c) <==> c as u32 == 133 || c as u32 == 160 || c as u32 == 5760 || (
        8192 <= c as u32 && c as u32 <= 8202) || c as u32 == 8232 || c as u32 == 8233 || c as u32
            == 8239 || c as u32 == 8287 || c as u32 == 12288),
{
}

/// Lines are what lies between line feeds: put together they are the text, each one but the last
/// ends with a line feed, and none has a line feed before its end.
pub proof fn law_lines(s: Seq<char>)
    ensures
        concat(raw_lines(s)) == s,
        forall|i: int| 0 <= i < raw_lines(s).len() ==> (#[trigger] raw_lines(s)[i]).len() > 0,
        forall|i: int|
            0 <= i < raw_lines(s).len() - 1 ==> (#[trigger] raw_lines(s)[i]).last() == '\n',
        forall|i: int, j: int|
            0 <= i < raw_lines(s).len() && 0 <= j < raw_lines(s)[i].len() - 1
                ==> #[trigger] raw_lines(s)[i][j] != '\n',
    decreases s.len(),
{
    lemma_concat_raw_lines(s);
    if s.len() > 0 {
        lemma_first_line_len(s);
        let n = first_line_len(s) as int;
        let rest = s.skip(n);
        law_lines(rest);
        let lines = raw_lines(s);
        assert(lines == seq![s.take(n)] + raw_lines(rest));
        assert forall|i: int| 0 <= i < lines.len() implies (#[trigger] lines[i]).len() > 0 by {
            if i > 0 {
                assert(lines[i] == raw_lines(rest)[i - 1]);
            }
        }
        assert forall|i: int| 0 <= i < lines.len() - 1 implies (#[trigger] lines[i]).last()
            == '\n' by {
            if i > 0 {
                assert(lines[i] == raw_lines(rest)[i - 1]);
            } else {
                assert(raw_lines(rest).len() > 0);
                assert(rest.len() > 0);
            }
        }
        assert forall|i: int, j: int|
            0 <= i < lines.len() && 0 <= j < lines[i].len() - 1 implies #[trigger] lines[i][j]
            != '\n' by {
            if i > 0 {
                assert(lines[i] == raw_lines(rest)[i - 1]);
                assert(raw_lines(rest)[i - 1][j] != '\n');
            }
        }
    }
}

/// A line without its line end is the line up to a line feed or a carriage return and a line feed.
pub proof fn law_line_end(line: Seq<char>)
    requires
        !line.contains('\n'),
    ensures
        strip_eol(line) == line,
        line.len() == 0 || line.last() != '\r' ==> strip_eol(line.push('\n')) == line,
        strip_eol(line.push('\r').push('\n')) == line,
{
    if line.len() > 0 {
        assert(line.contains(line.last()));
    }
    assert(line.push('\n').drop_last() =~= line);
    assert(line.push('\r').push('\n').drop_last() =~= line.push('\r'));
    assert(line.push('\r').drop_last() =~= line);
}

/// A part of a text is found just where the text holds it, and the first such place is given.
pub proof fn law_found_part(s: Seq<char>, p: Seq<char>)
    ensures
        match find(s, p) {
            Some(i) => i + p.len() <= s.len() && s.subrange(i as int, (i + p.len()) as int) == p
                && forall|j: int| 0 <= j < i ==> !#[trigger] stands_at(s, p, j),
            None => forall|j: int| !#[trigger] stands_at(s, p, j),
        },
    decreases s.len(),
{
    lemma_find(s, p);
    if p.is_prefix_of(s) {
    } else {
        assert(!stands_at(s, p, 0)) by {
            if stands_at(s, p, 0) {
                assert(p =~= s.subrange(0, p.len() as int));
            }
        }
        if s.len() > 0 {
            let d = s.drop_first();
            law_found_part(d, p);
            assert forall|j: int| 0 < j && #[trigger] stands_at(s, p, j) implies stands_at(
                d,
                p,
                j - 1,
            ) by {
                assert(d.subrange(j - 1, j - 1 + p.len()) =~= s.subrange(j, j + p.len()));
            }
            match find(d, p) {
                Some(i) => {
                    assert forall|j: int| 0 <= j < i + 1 implies !#[trigger] stands_at(s, p, j) by {
                        if stands_at(s, p, j) && j > 0 {
                            assert(stands_at(d, p, j - 1));
                        }
                    }
                },
                None => {
                    assert forall|j: int| !#[trigger] stands_at(s, p, j) by {
                        if stands_at(s, p, j) && j > 0 {
                            assert(stands_at(d, p, j - 1));
                        }
                    }
                },
            }
        } else {
            assert forall|j: int| !#[trigger] stands_at(s, p, j) by {
                if stands_at(s, p, j) {
                    assert(j == 0);
                }
            }
        }
    }
}

/// Whether a text holds another one at a place.
pub open spec fn stands_at(s: Seq<char>, p: Seq<char>, i: int) -> bool {
    0 <= i && i + p.len() <= s.len() && s.subrange(i, i + p.len()) == p
}

/// The last place of a part is the one after which the text holds it no more.
pub proof fn law_found_last_part(s: Seq<char>, p: Seq<char>)
    ensures
        match rfind(s, p) {
            Some(i) => stands_at(s, p, i as int) && forall|j: int|
                i < j ==> !#[trigger] stands_at(s, p, j),
            None => forall|j: int| !#[trigger] stands_at(s, p, j),
        },
    decreases s.len(),
{
    lemma_rfind(s, p);
    if p.is_suffix_of(s) {
    } else {
        let n = s.len() - p.len();
        assert(!stands_at(s, p, n)) by {
            if stands_at(s, p, n) {
                assert(p =~= s.subrange(n, s.len() as int));
            }
        }
        if s.len() > 0 {
            let d = s.drop_last();
            law_found_last_part(d, p);
            assert forall|j: int| j != n && #[trigger] stands_at(s, p, j) implies stands_at(
                d,
                p,
                j,
            ) by {
                assert(d.subrange(j, j + p.len()) =~= s.subrange(j, j + p.len()));
            }
            match rfind(d, p) {
                Some(i) => {
                    assert forall|j: int| i < j implies !#[trigger] stands_at(s, p, j) by {
                        if stands_at(s, p, j) && j != n {
                            assert(stands_at(d, p, j));
                        }
                    }
                },
                None => {
                    assert forall|j: int| !#[trigger] stands_at(s, p, j) by {
                        if stands_at(s, p, j) && j != n {
                            assert(stands_at(d, p, j));
                        }
                    }
                },
            }
        } else {
            assert forall|j: int| !#[trigger] stands_at(s, p, j) by {
                if stands_at(s, p, j) {
                    assert(j == n);
                }
            }
        }
    }
}

/// A text that is split comes together again, and the separator is in none of the parts.
#[verifier::rlimit(50)]
#[verifier::spinoff_prover]
pub proof fn law_split_text(s: Seq<char>, sep: Seq<char>)
    requires
        sep.len() > 0,
    ensures
        split(s, sep).len() > 0,
        join(split(s, sep), sep) == s,
        forall|i: int, j: int|
            0 <= i < split(s, sep).len() ==> !#[trigger] stands_at(split(s, sep)[i], sep, j),
    decreases s.len(),
{
    law_found_part(s, sep);
    let parts = split(s, sep);
    match find(s, sep) {
        Some(at) => {
            let head = s.take(at as int);
            let rest = s.skip((at + sep.len()) as int);
            law_split_text(rest, sep);
            let more = split(rest, sep);
            assert(parts == seq![head] + more);
            assert(parts.drop_first() =~= more);
            lemma_join_front(parts, sep);
            assert(s =~= head + sep + rest) by {
                assert(s.subrange(at as int, (at + sep.len()) as int) == sep);
                assert forall|k: int| 0 <= k < s.len() implies s[k] == (head + sep + rest)[k] by {
                    if at <= k < at + sep.len() {
                        assert(s.subrange(at as int, (at + sep.len()) as int)[k - at] == s[k]);
                    }
                }
            }
            assert forall|i: int, j: int| 0 <= i < parts.len() implies !#[trigger] stands_at(
                parts[i],
                sep,
                j,
            ) by {
                if i == 0 {
                    if stands_at(head, sep, j) {
                        assert(s.subrange(j, j + sep.len()) =~= head.subrange(j, j + sep.len()));
                        assert(stands_at(s, sep, j));
                    }
                } else {
                    assert(parts[i] == more[i - 1]);
                    assert(!stands_at(more[i - 1], sep, j));
                }
            }
        },
        None => {
            assert(parts == seq![s]);
        },
    }
}

/// Replacing a part leaves a text without it as it is, and puts the new text in the place of its
/// first occurrence and of those behind it.
pub proof fn law_replaced_text(a: Seq<char>, from: Seq<char>, to: Seq<char>)
    requires
        from.len() > 0,
    ensures
        (forall|j: int| !#[trigger] stands_at(a, from, j)) ==> replace(a, from, to) == a,
        find(a, from) matches Some(i) ==> replace(a, from, to) == a.take(i as int) + to + replace(
            a.skip(i as int + from.len()),
            from,
            to,
        ),
{
    law_found_part(a, from);
    if let Some(i) = find(a, from) {
        assert(stands_at(a, from, i as int));
    }
}

/// Letters are the same, case aside, just where they differ at most in the bit that tells ASCII
/// capitals from small letters.
pub proof fn law_letter_case(c: char, d: char)
    ensures
        ascii_lower(c) == ascii_lower(d) <==> (c == d || ('A' <= c <= 'Z' && d as u32 == c as u32
            + 32) || ('A' <= d <= 'Z' && c as u32 == d as u32 + 32)),
{
}

/// Texts are ordered by the first character in which they differ; the start of a text comes
/// before the text.
pub proof fn law_order_of_texts(p: Seq<char>, a: Seq<char>, b: Seq<char>)
    ensures
        str_less(p, p + a) <==> a.len() > 0,
        a.len() > 0 && b.len() > 0 && a[0] != b[0] ==> (str_less(p + a, p + b) <==> a[0] < b[0]),
    decreases p.len(),
{
    if p.len() > 0 {
        let d = p.drop_first();
        law_order_of_texts(d, a, b);
        assert((p + a).drop_first() =~= d + a);
        assert((p + b).drop_first() =~= d + b);
    } else {
        assert(p + a =~= a);
        assert(p + b =~= b);
    }
}

/// A number that is written in digits has the value that place notation gives it.
pub proof fn law_digits(s: Seq<char>, d: char)
    ensures
        is_digit(d) <==> 48 <= d as u32 <= 57,
        digits_value(seq![d]) == if is_digit(d) {
            Some((d as u32 - 48) as nat)
        } else {
            None
        },
        s.len() > 0 && is_digit(d) ==> digits_value(s.push(d)) == match digits_value(s) {
            Some(n) => Some((n * 10 + (d as u32 - 48)) as nat),
            None => None,
        },
        !is_digit(d) ==> digits_value(s.push(d)) is None,
        digits_value(Seq::empty()) is None,
        unsigned_value(seq!['+'] + s) == digits_value(s),
        s.len() > 0 && s[0] != '+' ==> unsigned_value(s) == digits_value(s),
{
    assert(s.push(d).drop_last() =~= s);
    assert((seq!['+'] + s).drop_first() =~= s);
    reveal_with_fuel(digits_value, 2);
}

/// Words are what lies between white space: none is empty or holds white space, and a text of
/// words with white space between them has just these words.
pub proof fn law_words(w: Seq<char>, gap: char, rest: Seq<char>)
    requires
        w.len() > 0,
        forall|i: int| 0 <= i < w.len() ==> !is_white(#[trigger] w[i]),
        is_white(gap),
    ensures
        words(w) == seq![w],
        words(w + seq![gap] + rest) == seq![w] + words(rest),
        words(seq![gap] + rest) == words(rest),
        words(Seq::empty()) == Seq::<Seq<char>>::empty(),
{
    assert((seq![gap] + rest).drop_first() =~= rest);
    lemma_word_len(w, w.len());
    assert(w.skip(w.len() as int) =~= Seq::<char>::empty());
    assert(w.take(w.len() as int) =~= w);
    reveal_with_fuel(words, 2);
    assert(words(w) =~= seq![w]);
    let s = w + seq![gap] + rest;
    assert(s[0] == w[0]);
    assert forall|i: int| 0 <= i < w.len() implies !is_white(#[trigger] s[i]) by {
        assert(s[i] == w[i]);
    }
    assert(s[w.len() as int] == gap);
    lemma_word_len(s, w.len());
    assert(s.take(w.len() as int) =~= w);
    assert(s.skip(w.len() as int) =~= seq![gap] + rest);
}

/// A sorted set holds each text of a list once, in ascending order, and no other text.
pub proof fn law_sorted_set(all: Seq<Seq<char>>, x: Seq<char>)
    ensures
        sorted_set(all, all.len()).contains(x) <==> all.contains(x),
        sorted_set(all, all.len()).no_duplicates(),
        forall|i: int, j: int|
            0 <= i < j < sorted_set(all, all.len()).len() ==> str_less(
                #[trigger] sorted_set(all, all.len())[i],
                #[trigger] sorted_set(all, all.len())[j],
            ),
{
    lemma_sorted_set(all, all.len());
    assert(all.take(all.len() as int) =~= all);
    let r = sorted_set(all, all.len());
    assert(r.contains(x) <==> all.take(all.len() as int).contains(x));
    assert forall|i: int, j: int| 0 <= i < r.len() && 0 <= j < r.len() && i != j implies r[i]
        != r[j] by {
        if i < j {
            assert(str_less(r[i], r[j]));
        } else {
            assert(str_less(r[j], r[i]));
        }
        lemma_str_less_total(r[i], r[j]);
    }
}

/// Bytes count characters: the characters before the byte at which a prefix of a text ends are
/// those of the prefix, and the text between the ends of two prefixes is what lies between them.
pub proof fn law_characters_and_bytes(s: Seq<char>, a: int, b: int)
    requires
        0 <= a <= b <= s.len(),
    ensures
        chars_before(s, byte_len(s.take(a)) as int) == a,
        chars_within(s, byte_len(s.take(a)) as int) == a,
        byte_slice(s, byte_len(s.take(a)) as int, byte_len(s.take(b)) as int) == s.subrange(a, b),
{
    lemma_chars_of_prefix(s, a);
    lemma_chars_of_prefix(s, b);
}

proof fn lemma_chars_of_prefix(s: Seq<char>, n: int)
    requires
        0 <= n <= s.len(),
    ensures
        chars_before(s, byte_len(s.take(n)) as int) == n,
        chars_within(s, byte_len(s.take(n)) as int) == n,
    decreases n,
{
    if n == 0 {
        assert(s.take(0) =~= Seq::<char>::empty());
        if s.len() > 0 {
            vstd::utf8::char_is_scalar(s[0]);
        }
    } else {
        let d = s.drop_first();
        let w = vstd::utf8::encode_scalar(s[0] as u32).len();
        vstd::utf8::char_is_scalar(s[0]);
        lemma_chars_of_prefix(d, n - 1);
        lemma_byte_len_add(seq![s[0]], d.take(n - 1));
        assert(s.take(n) =~= seq![s[0]] + d.take(n - 1));
        lemma_byte_len_push(Seq::empty(), s[0]);
        assert(Seq::<char>::empty().push(s[0]) =~= seq![s[0]]);
    }
}

/// A part is found behind a text that lacks its first character.
pub proof fn lemma_found_behind(a: Seq<char>, p: Seq<char>, b: Seq<char>)
    requires
        p.len() > 0,
        !a.contains(p[0]),
    ensures
        find(a + p + b, p) == Some(a.len()),
    decreases a.len(),
{
    let t = a + p + b;
    if a.len() == 0 {
        assert(p.is_prefix_of(t)) by {
            assert(t.subrange(0, p.len() as int) =~= p);
        }
    } else {
        assert(a.contains(a[0]));
        assert(t[0] == a[0]);
        assert(!p.is_prefix_of(t));
        let d = a.drop_first();
        assert(t.drop_first() =~= d + p + b);
        assert(!d.contains(p[0])) by {
            if d.contains(p[0]) {
                let i = choose|i: int| 0 <= i < d.len() && d[i] == p[0];
                assert(a[i + 1] == p[0]);
            }
        }
        lemma_found_behind(d, p, b);
    }
}

/// A text without the first character of a part has not got the part.
pub proof fn lemma_not_found(s: Seq<char>, p: Seq<char>)
    requires
        p.len() > 0,
        !s.contains(p[0]),
    ensures
        find(s, p) is None,
    decreases s.len(),
{
    if s.len() > 0 {
        assert(s.contains(s[0]));
        let d = s.drop_first();
        assert(!d.contains(p[0])) by {
            if d.contains(p[0]) {
                let i = choose|i: int| 0 <= i < d.len() && d[i] == p[0];
                assert(s[i + 1] == p[0]);
            }
        }
        lemma_not_found(d, p);
    }
}

/// A part that stands once in a text gives way to the new text, and what stands around it stays.
pub proof fn law_replaced_once(a: Seq<char>, from: Seq<char>, b: Seq<char>, to: Seq<char>)
    requires
        from.len() > 0,
        !a.contains(from[0]),
        !b.contains(from[0]),
    ensures
        replace(a + from + b, from, to) == a + to + b,
        replace(b, from, to) == b,
{
    let t = a + from + b;
    lemma_found_behind(a, from, b);
    lemma_not_found(b, from);
    assert(t.take(a.len() as int) =~= a);
    assert(t.skip((a.len() + from.len()) as int) =~= b);
    let i = a.len();
    assert(find(t, from) == Some(i));
    assert(replace(t, from, to) == t.take(i as int) + to + replace(
        t.skip((i + from.len()) as int),
        from,
        to,
    ));
    assert(replace(b, from, to) == b);
}

/// One part more is joined with one separator more.
pub proof fn law_join_step(parts: Seq<Seq<char>>, part: Seq<char>, sep: Seq<char>)
    ensures
        join(parts.push(part), sep) == if parts.len() == 0 {
            part
        } else {
            join(parts, sep) + sep + part
        },
{
    assert(parts.push(part).drop_last() =~= parts);
}

/// Parts that hold something give a text that holds something.
pub proof fn law_join_is_empty(parts: Seq<Seq<char>>, sep: Seq<char>)
    requires
        sep.len() > 0,
    ensures
        join(parts, sep).len() == 0 <==> parts.len() == 0 || (parts.len() == 1 && parts[0].len()
            == 0),
{
}

} // verus!
