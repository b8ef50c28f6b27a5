//! Character-level text primitives: whitespace, trimming, line splitting and
//! UTF-8 byte offsets, each stated over `Seq<char>`.

use vstd::prelude::*;
use vstd::utf8::*;

verus! {

broadcast use vstd::utf8::char_is_scalar;

/// `char::is_whitespace`: the Unicode `White_Space` property.
pub open spec fn is_ws(c: char) -> bool {
    let u = c as u32;
    ||| 0x09 <= u <= 0x0D
    ||| u == 0x20
    ||| u == 0x85
    ||| u == 0xA0
    ||| u == 0x1680
    ||| 0x2000 <= u <= 0x200A
    ||| u == 0x2028
    ||| u == 0x2029
    ||| u == 0x202F
    ||| u == 0x205F
    ||| u == 0x3000
}

/// Decides the Unicode `White_Space` property of one character.
pub fn is_whitespace_char(c: char) -> (r: bool)
    ensures
        r == is_ws(c),
{
    let u = c as u32;
    (0x09 <= u && u <= 0x0D) || u == 0x20 || u == 0x85 || u == 0xA0 || u == 0x1680 || (0x2000
        <= u && u <= 0x200A) || u == 0x2028 || u == 0x2029 || u == 0x202F || u == 0x205F || u
        == 0x3000
}

/// Number of bytes of the UTF-8 encoding of `c`.
pub open spec fn char_width(c: char) -> nat {
    encode_scalar(c as u32).len()
}

/// Number of bytes of the UTF-8 encoding of `s` (what `str::len` returns).
pub open spec fn byte_len(s: Seq<char>) -> nat {
    encode_utf8(s).len()
}

/// Returns `char::len_utf8`.
pub fn char_width_of(c: char) -> (w: u8)
    ensures
        w == char_width(c),
        1 <= w <= 4,
{
    let u = c as u32;
    if u <= 0x7F {
        1
    } else if u <= 0x7FF {
        2
    } else if u <= 0xFFFF {
        3
    } else {
        4
    }
}


/// The byte length of a concatenation is the sum of the byte lengths.
pub proof fn lemma_byte_len_concat(a: Seq<char>, b: Seq<char>)
    ensures
        byte_len(a + b) == byte_len(a) + byte_len(b),
    decreases a.len(),
{
    if a.len() > 0 {
        assert((a + b).drop_first() =~= a.drop_first() + b);
        lemma_byte_len_concat(a.drop_first(), b);
    } else {
        assert(a + b =~= b);
    }
}

/// The byte length of a sequence that grows by one character.
pub proof fn lemma_byte_len_push(a: Seq<char>, c: char)
    ensures
        byte_len(a.push(c)) == byte_len(a) + char_width(c),
{
    lemma_byte_len_concat(a, seq![c]);
    assert(a.push(c) =~= a + seq![c]);
    assert(seq![c].drop_first() =~= Seq::<char>::empty());
    assert(byte_len(Seq::<char>::empty()) == 0);
    assert(byte_len(seq![c]) == char_width(c) + byte_len(seq![c].drop_first()));
}

/// `s` without its leading whitespace (`str::trim_start`).
pub open spec fn trim_start(s: Seq<char>) -> Seq<char>
    decreases s.len(),
{
    if s.len() > 0 && is_ws(s[0]) {
        trim_start(s.drop_first())
    } else {
        s
    }
}

/// `s` without its trailing whitespace (`str::trim_end`).
pub open spec fn trim_end(s: Seq<char>) -> Seq<char>
    decreases s.len(),
{
    if s.len() > 0 && is_ws(s.last()) {
        trim_end(s.drop_last())
    } else {
        s
    }
}

/// `s` without leading and trailing whitespace (`str::trim`).
pub open spec fn trim(s: Seq<char>) -> Seq<char> {
    trim_end(trim_start(s))
}

/// The leading whitespace of `s`.
pub open spec fn leading_ws(s: Seq<char>) -> Seq<char> {
    s.take(s.len() - trim_start(s).len())
}

/// The rest of `s` after `prefix`, if `s` starts with it (`str::strip_prefix`).
pub open spec fn strip_prefix(s: Seq<char>, prefix: Seq<char>) -> Option<Seq<char>> {
    if prefix.len() <= s.len() && s.take(prefix.len() as int) == prefix {
        Some(s.skip(prefix.len() as int))
    } else {
        None
    }
}

/// The suffix of `s` that starts `k` bytes into its UTF-8 encoding, if `k`
/// is a character boundary of `s` (`str::get(k..)`).
pub open spec fn skip_bytes(s: Seq<char>, k: int) -> Option<Seq<char>>
    decreases s.len(),
{
    if k == 0 {
        Some(s)
    } else if k < 0 || s.len() == 0 || k < char_width(s[0]) {
        None
    } else {
        skip_bytes(s.drop_first(), k - char_width(s[0]))
    }
}

proof fn lemma_trim_start_skip(s: Seq<char>, i: int)
    requires
        0 <= i <= s.len(),
        forall|j: int| 0 <= j < i ==> is_ws(#[trigger] s[j]),
    ensures
        trim_start(s) == trim_start(s.skip(i)),
    decreases i,
{
    if i > 0 {
        assert(s.drop_first().skip(i - 1) =~= s.skip(i));
        lemma_trim_start_skip(s.drop_first(), i - 1);
    } else {
        assert(s.skip(0) =~= s);
    }
}

proof fn lemma_trim_end_take(s: Seq<char>, i: int)
    requires
        0 <= i <= s.len(),
        forall|j: int| i <= j < s.len() ==> is_ws(#[trigger] s[j]),
    ensures
        trim_end(s) == trim_end(s.take(i)),
    decreases s.len() - i,
{
    if i < s.len() {
        assert(s.drop_last().take(i) =~= s.take(i));
        lemma_trim_end_take(s.drop_last(), i);
    } else {
        assert(s.take(i) =~= s);
    }
}

/// Index of the first character of `s` that is not whitespace (or its length).
pub fn leading_ws_count(s: &[char]) -> (n: usize)
    ensures
        n <= s@.len(),
        trim_start(s@) == s@.skip(n as int),
        forall|j: int| 0 <= j < n ==> is_ws(#[trigger] s@[j]),
{
    let mut i: usize = 0;
    while i < s.len() && is_whitespace_char(s[i])
        invariant
            i <= s@.len(),
            forall|j: int| 0 <= j < i ==> is_ws(#[trigger] s@[j]),
        decreases s@.len() - i,
    {
        i = i + 1;
    }
    proof {
        lemma_trim_start_skip(s@, i as int);
    }
    i
}

/// End of the range `start..` of `s` once its trailing whitespace is cut off.
pub fn trailing_ws_start(s: &[char], start: usize) -> (e: usize)
    requires
        start <= s@.len(),
    ensures
        start <= e <= s@.len(),
        trim_end(s@.skip(start as int)) == s@.subrange(start as int, e as int),
{
    let mut e: usize = s.len();
    while e > start && is_whitespace_char(s[e - 1])
        invariant
            start <= e <= s@.len(),
            forall|j: int| e <= j < s@.len() ==> is_ws(#[trigger] s@[j]),
        decreases e,
    {
        e = e - 1;
    }
    proof {
        let t = s@.skip(start as int);
        assert forall|j: int| e - start <= j < t.len() implies is_ws(#[trigger] t[j]) by {
            assert(t[j] == s@[j + start]);
        }
        lemma_trim_end_take(t, e - start);
        assert(t.take(e - start) =~= s@.subrange(start as int, e as int));
        if !(e > start) {
        } else {
            assert(!is_ws(s@[e - 1]));
            assert(t.take(e - start).last() == s@[e - 1]);
        }
    }
    e
}

/// Whether `s[from..to]` equals `lit`.
pub fn range_eq(s: &[char], from: usize, to: usize, lit: &[char]) -> (r: bool)
    requires
        from <= to <= s@.len(),
    ensures
        r == (s@.subrange(from as int, to as int) == lit@),
{
    if to - from != lit.len() {
        return false;
    }
    let mut i: usize = 0;
    while i < lit.len()
        invariant
            to - from == lit@.len(),
            from <= to <= s@.len(),
            i <= lit@.len(),
            forall|j: int| 0 <= j < i ==> s@[from + j] == lit@[j],
        decreases lit@.len() - i,
    {
        if s[from + i] != lit[i] {
            assert(s@.subrange(from as int, to as int)[i as int] != lit@[i as int]);
            return false;
        }
        i = i + 1;
    }
    assert(s@.subrange(from as int, to as int) =~= lit@);
    true
}

/// Appends `s[from..to]` to `out`.
pub fn push_range(out: &mut Vec<char>, s: &[char], from: usize, to: usize)
    requires
        from <= to <= s@.len(),
    ensures
        final(out)@ == old(out)@ + s@.subrange(from as int, to as int),
{
    let mut i: usize = from;
    while i < to
        invariant
            from <= i <= to <= s@.len(),
            out@ == old(out)@ + s@.subrange(from as int, i as int),
        decreases to - i,
    {
        out.push(s[i]);
        proof {
            assert(s@.subrange(from as int, i + 1) =~= s@.subrange(from as int, i as int).push(
                s@[i as int],
            ));
        }
        i = i + 1;
    }
}

/// Appends all of `s` to `out`.
pub fn push_all(out: &mut Vec<char>, s: &[char])
    ensures
        final(out)@ == old(out)@ + s@,
{
    push_range(out, s, 0, s.len());
    assert(s@.subrange(0, s@.len() as int) =~= s@);
}


/// The character sequences of a vector of character vectors.
pub open spec fn views(v: Seq<Vec<char>>) -> Seq<Seq<char>> {
    Seq::new(v.len(), |j: int| v[j]@)
}

/// The pieces of `s` between its `'\n'` characters (`str::split('\n')`).
pub open spec fn split_newlines(s: Seq<char>) -> Seq<Seq<char>>
    decreases s.len(),
{
    if s.len() == 0 {
        seq![Seq::<char>::empty()]
    } else {
        let r = split_newlines(s.drop_last());
        if s.last() == '\n' {
            r.push(Seq::<char>::empty())
        } else {
            r.update(r.len() - 1, r.last().push(s.last()))
        }
    }
}

/// `l` without one trailing carriage return.
pub open spec fn strip_cr(l: Seq<char>) -> Seq<char> {
    if l.len() > 0 && l.last() == '\r' {
        l.drop_last()
    } else {
        l
    }
}

/// The lines of `s` (`str::lines`): the pieces between line feeds, where a
/// line that ended in a line feed also loses one carriage return before it,
/// and where a final empty piece is no line.
pub open spec fn text_lines(s: Seq<char>) -> Seq<Seq<char>> {
    if s.len() == 0 {
        Seq::empty()
    } else {
        let p = split_newlines(s);
        let k = p.len() - 1;
        Seq::new(k as nat, |j: int| strip_cr(p[j])) + if p[k].len() == 0 {
            Seq::<Seq<char>>::empty()
        } else {
            seq![p[k]]
        }
    }
}

pub proof fn lemma_split_newlines_len(s: Seq<char>)
    ensures
        split_newlines(s).len() >= 1,
    decreases s.len(),
{
    if s.len() > 0 {
        lemma_split_newlines_len(s.drop_last());
    }
}

/// The characters of `s`.
pub fn chars_of(s: &str) -> (v: Vec<char>)
    ensures
        v@ == s@,
{
    broadcast use vstd::string::group_string_axioms;

    let mut v: Vec<char> = Vec::new();
    for c in it: s.chars()
        invariant
            v@ == it.seq().take(it.index() as int),
    {
        proof {
            assert(it.seq().take(it.index() + 1) =~= it.seq().take(it.index() as int).push(c));
        }
        v.push(c);
    }
    assert(v@ =~= s@);
    v
}

/// Splits `s` into its lines (`str::lines`).
pub fn split_lines(s: &[char]) -> (ls: Vec<Vec<char>>)
    ensures
        views(ls@) == text_lines(s@),
{
    let mut done: Vec<Vec<char>> = Vec::new();
    let mut cur: Vec<char> = Vec::new();
    let ghost mut raw: Seq<Seq<char>> = Seq::empty();
    let mut i: usize = 0;
    while i < s.len()
        invariant
            i <= s@.len(),
            raw.push(cur@) == split_newlines(s@.take(i as int)),
            views(done@) == Seq::new(raw.len(), |j: int| strip_cr(raw[j])),
        decreases s@.len() - i,
    {
        let c = s[i];
        proof {
            assert(s@.take(i + 1).drop_last() =~= s@.take(i as int));
            lemma_split_newlines_len(s@.take(i as int));
        }
        if c == '\n' {
            let mut line = cur;
            if line.len() > 0 && line[line.len() - 1] == '\r' {
                line.pop();
            }
            let ghost prev_views = views(done@);
            let ghost prev_raw = raw;
            proof {
                assert(line@ == strip_cr(cur@));
                raw = raw.push(cur@);
            }
            done.push(line);
            cur = Vec::new();
            proof {
                assert(views(done@) =~= prev_views.push(strip_cr(raw.last())));
                assert(views(done@) =~= Seq::new(raw.len(), |j: int| strip_cr(raw[j])));
                assert(raw.push(cur@) =~= split_newlines(s@.take(i + 1)));
            }
        } else {
            cur.push(c);
            proof {
                assert(raw.push(cur@) =~= split_newlines(s@.take(i + 1)));
            }
        }
        i = i + 1;
    }
    proof {
        assert(s@.take(i as int) =~= s@);
    }
    let ghost p = raw.push(cur@);
    let ghost before = views(done@);
    if cur.len() > 0 {
        done.push(cur);
        proof {
            assert(views(done@) =~= before.push(p.last()));
        }
    }
    proof {
        lemma_split_newlines_len(s@);
        if s@.len() == 0 {
            assert(views(done@) =~= text_lines(s@));
        } else {
            assert(Seq::new(raw.len(), |j: int| strip_cr(p[j])) =~= before);
            assert(views(done@) =~= text_lines(s@));
        }
    }
    done
}


proof fn lemma_char_width_bound(c: char)
    ensures
        1 <= char_width(c) <= 4,
{
}

/// At most four bytes per character.
pub proof fn lemma_byte_len_bound(s: Seq<char>)
    ensures
        byte_len(s) <= 4 * s.len(),
    decreases s.len(),
{
    if s.len() > 0 {
        lemma_byte_len_bound(s.drop_first());
        lemma_char_width_bound(s[0]);
    }
}

/// Byte length of the leading whitespace of `s`.
pub fn leading_ws_bytes(s: &[char]) -> (b: u128)
    ensures
        b == byte_len(leading_ws(s@)),
        b == byte_len(s@) - byte_len(trim_start(s@)),
{
    let n = leading_ws_count(s);
    let mut acc: u128 = 0;
    let mut i: usize = 0;
    while i < n
        invariant
            i <= n <= s@.len(),
            acc == byte_len(s@.take(i as int)),
            acc <= 4 * i,
        decreases n - i,
    {
        let w = char_width_of(s[i]);
        proof {
            lemma_byte_len_push(s@.take(i as int), s@[i as int]);
            assert(s@.take(i + 1) =~= s@.take(i as int).push(s@[i as int]));
        }
        acc = acc + w as u128;
        i = i + 1;
    }
    proof {
        assert(leading_ws(s@) =~= s@.take(n as int));
        lemma_byte_len_concat(s@.take(n as int), s@.skip(n as int));
        assert(s@.take(n as int) + s@.skip(n as int) =~= s@);
    }
    acc
}

/// The character index at which `s` continues `k` bytes into its UTF-8
/// encoding, or `None` where `k` is no character boundary of `s`.
pub fn skip_bytes_index(s: &[char], k: u128) -> (r: Option<usize>)
    ensures
        match r {
            Some(i) => i <= s@.len() && skip_bytes(s@, k as int) == Some(s@.skip(i as int)),
            None => skip_bytes(s@, k as int) is None,
        },
{
    let mut acc: u128 = 0;
    let mut i: usize = 0;
    assert(s@.skip(0) =~= s@);
    while acc < k
        invariant
            acc <= k,
            i <= s@.len(),
            skip_bytes(s@, k as int) == skip_bytes(s@.skip(i as int), k - acc),
        decreases k - acc,
    {
        if i == s.len() {
            return None;
        }
        let w = char_width_of(s[i]);
        assert(s@.skip(i as int)[0] == s@[i as int]);
        if w as u128 > k - acc {
            return None;
        }
        assert(s@.skip(i as int).drop_first() =~= s@.skip(i + 1));
        acc = acc + w as u128;
        i = i + 1;
    }
    Some(i)
}

/// Whether `s[from..to]` holds one of the characters of `set`.
pub fn contains_any(s: &[char], from: usize, to: usize, set: &[char]) -> (r: bool)
    requires
        from <= to <= s@.len(),
    ensures
        r == (exists|j: int| from <= j < to && set@.contains(#[trigger] s@[j])),
{
    let mut i: usize = from;
    while i < to
        invariant
            from <= i <= to <= s@.len(),
            forall|j: int| from <= j < i ==> !set@.contains(#[trigger] s@[j]),
        decreases to - i,
    {
        let c = s[i];
        let mut k: usize = 0;
        while k < set.len()
            invariant
                k <= set@.len(),
                from <= i < to <= s@.len(),
                c == s@[i as int],
                forall|m: int| 0 <= m < k ==> set@[m] != c,
            decreases set@.len() - k,
        {
            if set[k] == c {
                assert(set@[k as int] == s@[i as int]);
                assert(set@.contains(s@[i as int]));
                return true;
            }
            k = k + 1;
        }
        i = i + 1;
    }
    false
}

/// The range of `s` that `str::trim` keeps.
pub fn trim_range(s: &[char]) -> (r: (usize, usize))
    ensures
        r.0 <= r.1 <= s@.len(),
        trim_start(s@) == s@.skip(r.0 as int),
        trim(s@) == s@.subrange(r.0 as int, r.1 as int),
        leading_ws(s@) == s@.take(r.0 as int),
{
    let a = leading_ws_count(s);
    let e = trailing_ws_start(s, a);
    (a, e)
}

/// The range of `s` that follows `- ` in its trimmed text, if that text
/// starts with `- `.
pub fn dash_item(s: &[char]) -> (r: Option<(usize, usize)>)
    ensures
        match r {
            Some((f, t)) => f <= t <= s@.len() && strip_prefix(trim(s@), seq!['-', ' '])
                == Some(s@.subrange(f as int, t as int)),
            None => strip_prefix(trim(s@), seq!['-', ' ']) is None,
        },
{
    let (a, e) = trim_range(s);
    let dash: [char; 2] = ['-', ' '];
    if e - a >= 2 && range_eq(s, a, a + 2, &dash) {
        proof {
            let t = s@.subrange(a as int, e as int);
            assert(t.take(2) =~= s@.subrange(a as int, a + 2));
            assert(t.skip(2) =~= s@.subrange(a + 2, e as int));
        }
        Some((a + 2, e))
    } else {
        proof {
            let t = s@.subrange(a as int, e as int);
            if t.len() >= 2 {
                assert(t.take(2) =~= s@.subrange(a as int, a + 2));
            }
        }
        None
    }
}

/// `s` holds no carriage return.
pub open spec fn no_cr(s: Seq<char>) -> bool {
    forall|k: int| 0 <= k < s.len() ==> s[k] != '\r'
}

/// `s` holds neither a line feed nor a carriage return.
pub open spec fn no_line_breaks(s: Seq<char>) -> bool {
    forall|k: int| 0 <= k < s.len() ==> s[k] != '\n' && s[k] != '\r'
}

/// The lines `ls`, each followed by a line feed.
pub open spec fn terminated(ls: Seq<Seq<char>>) -> Seq<char>
    decreases ls.len(),
{
    if ls.len() == 0 {
        Seq::empty()
    } else {
        ls[0] + seq!['\n'] + terminated(ls.drop_first())
    }
}

/// Terminating two runs of lines one after the other.
pub proof fn lemma_terminated_concat(a: Seq<Seq<char>>, b: Seq<Seq<char>>)
    ensures
        terminated(a + b) == terminated(a) + terminated(b),
    decreases a.len(),
{
    if a.len() == 0 {
        assert(a + b =~= b);
    } else {
        assert((a + b).drop_first() =~= a.drop_first() + b);
        lemma_terminated_concat(a.drop_first(), b);
    }
}

/// Terminating one more line.
pub proof fn lemma_terminated_push(ls: Seq<Seq<char>>, l: Seq<char>)
    ensures
        terminated(ls.push(l)) == terminated(ls) + l + seq!['\n'],
{
    lemma_terminated_concat(ls, seq![l]);
    assert(ls.push(l) =~= ls + seq![l]);
    assert(seq![l].drop_first() =~= Seq::<Seq<char>>::empty());
    assert(terminated(Seq::<Seq<char>>::empty()) == Seq::<char>::empty());
    assert(seq![l][0] == l);
    assert(terminated(seq![l]) =~= l + seq!['\n']);
}

/// Appending text without a line feed lengthens the last piece.
pub proof fn lemma_split_append(s: Seq<char>, t: Seq<char>)
    requires
        forall|k: int| 0 <= k < t.len() ==> t[k] != '\n',
    ensures
        split_newlines(s + t) == split_newlines(s).update(
            split_newlines(s).len() - 1,
            split_newlines(s).last() + t,
        ),
    decreases t.len(),
{
    lemma_split_newlines_len(s);
    if t.len() == 0 {
        assert(s + t =~= s);
        assert(split_newlines(s).last() + t =~= split_newlines(s).last());
        assert(split_newlines(s).update(split_newlines(s).len() - 1, split_newlines(s).last())
            =~= split_newlines(s));
    } else {
        let t0 = t.drop_last();
        lemma_split_append(s, t0);
        assert((s + t).drop_last() =~= s + t0);
        assert((s + t).last() == t.last());
        assert(split_newlines(s).last() + t0 + seq![t.last()] =~= split_newlines(s).last() + t);
        let r = split_newlines(s + t0);
        assert(r.last() == split_newlines(s).last() + t0);
        assert(split_newlines(s + t) =~= r.update(r.len() - 1, r.last().push(t.last())));
        assert(r.last().push(t.last()) =~= split_newlines(s).last() + t);
        assert(split_newlines(s + t) =~= split_newlines(s).update(
            split_newlines(s).len() - 1,
            split_newlines(s).last() + t,
        ));
    }
}

/// Splitting terminated lines gives the lines back, and one empty piece.
proof fn lemma_split_terminated(ls: Seq<Seq<char>>)
    requires
        forall|j: int| 0 <= j < ls.len() ==> no_line_breaks(#[trigger] ls[j]),
    ensures
        split_newlines(terminated(ls)) == ls.push(Seq::<char>::empty()),
    decreases ls.len(),
{
    if ls.len() == 0 {
        assert(split_newlines(Seq::<char>::empty()) =~= seq![Seq::<char>::empty()]);
        assert(ls.push(Seq::<char>::empty()) =~= seq![Seq::<char>::empty()]);
    } else {
        let init = ls.drop_last();
        let l = ls.last();
        lemma_split_terminated(init);
        lemma_terminated_push(init, l);
        assert(init.push(l) =~= ls);
        assert(no_line_breaks(ls[ls.len() - 1]));
        let x = terminated(init) + l;
        lemma_split_append(terminated(init), l);
        let px = init.push(Seq::<char>::empty());
        assert(Seq::<char>::empty() + l =~= l);
        assert(split_newlines(x) =~= init.push(l));
        assert(x.push('\n') =~= terminated(ls));
        assert(x.push('\n').drop_last() =~= x);
        assert(split_newlines(terminated(ls)) =~= ls.push(Seq::<char>::empty()));
    }
}

/// Terminated lines without line breaks read back as the same lines.
pub proof fn lemma_text_lines_terminated(ls: Seq<Seq<char>>)
    requires
        forall|j: int| 0 <= j < ls.len() ==> no_line_breaks(#[trigger] ls[j]),
    ensures
        text_lines(terminated(ls)) == ls,
{
    lemma_split_terminated(ls);
    let t = terminated(ls);
    if t.len() == 0 {
        if ls.len() > 0 {
            assert(t =~= ls[0] + seq!['\n'] + terminated(ls.drop_first()));
            assert(t[ls[0].len() as int] == '\n');
        }
        assert(text_lines(t) =~= ls);
    } else {
        let p = split_newlines(t);
        assert forall|j: int| 0 <= j < ls.len() implies strip_cr(p[j]) == ls[j] by {
            assert(p[j] == ls[j]);
            assert(no_line_breaks(ls[j]));
            if ls[j].len() > 0 {
                assert(ls[j][ls[j].len() - 1] != '\r');
            }
        }
        assert(text_lines(t) =~= ls);
    }
}

/// Each piece of the split of `s` is followed in `s` by the rest.
proof fn lemma_split_rejoin(s: Seq<char>)
    ensures
        split_newlines(s).len() >= 1,
        terminated(split_newlines(s).drop_last()) + split_newlines(s).last() == s,
        forall|j: int|
            0 <= j < split_newlines(s).len() ==> forall|k: int|
                0 <= k < (#[trigger] split_newlines(s)[j]).len() ==> split_newlines(s)[j][k]
                    != '\n',
        no_cr(s) ==> forall|j: int|
            0 <= j < split_newlines(s).len() ==> no_line_breaks(#[trigger] split_newlines(s)[j]),
    decreases s.len(),
{
    lemma_split_newlines_len(s);
    if s.len() == 0 {
        assert(split_newlines(s).drop_last() =~= Seq::<Seq<char>>::empty());
        assert(terminated(Seq::<Seq<char>>::empty()) + Seq::<char>::empty() =~= s);
    } else {
        let x = s.drop_last();
        let c = s.last();
        lemma_split_rejoin(x);
        let r = split_newlines(x);
        if no_cr(s) {
            assert forall|k: int| 0 <= k < x.len() implies x[k] != '\r' by {
                assert(x[k] == s[k]);
            }
        }
        if c == '\n' {
            assert(split_newlines(s) =~= r.push(Seq::<char>::empty()));
            assert(split_newlines(s).drop_last() =~= r);
            assert(r =~= r.drop_last().push(r.last()));
            lemma_terminated_push(r.drop_last(), r.last());
            assert(terminated(r) + Seq::<char>::empty() =~= s);
        } else {
            let q = split_newlines(s);
            assert(q =~= r.update(r.len() - 1, r.last().push(c)));
            assert(q.drop_last() =~= r.drop_last());
            assert(q.last() =~= r.last().push(c));
            assert(terminated(r.drop_last()) + r.last() == x);
            assert(terminated(r.drop_last()) + r.last().push(c) =~= x.push(c));
            assert(x.push(c) =~= s);
            assert(terminated(q.drop_last()) + q.last() =~= s);
            if no_cr(s) {
                assert(s[s.len() - 1] == c);
                assert(no_line_breaks(q.last()));
            }
        }
    }
}

/// Text that ends in a line feed and holds no carriage return is its lines,
/// each followed by a line feed; its lines hold no line breaks.
pub proof fn lemma_lines_rejoin(s: Seq<char>)
    requires
        no_cr(s),
        s.len() == 0 || s.last() == '\n',
    ensures
        terminated(text_lines(s)) == s,
        forall|j: int|
            0 <= j < text_lines(s).len() ==> no_line_breaks(#[trigger] text_lines(s)[j]),
{
    lemma_split_rejoin(s);
    if s.len() == 0 {
        assert(text_lines(s) =~= Seq::<Seq<char>>::empty());
    } else {
        let p = split_newlines(s);
        let x = s.drop_last();
        lemma_split_newlines_len(x);
        assert(p =~= split_newlines(x).push(Seq::<char>::empty()));
        assert(p.last().len() == 0);
        assert forall|j: int| 0 <= j < p.len() - 1 implies strip_cr(p[j]) == p[j] by {
            assert(no_line_breaks(p[j]));
            if p[j].len() > 0 {
                assert(p[j][p[j].len() - 1] != '\r');
            }
        }
        assert(text_lines(s) =~= p.drop_last());
        assert(terminated(p.drop_last()) + p.last() =~= terminated(p.drop_last()));
    }
}

/// The lines of text without carriage returns hold no line breaks.
pub proof fn lemma_text_lines_no_breaks(s: Seq<char>)
    requires
        no_cr(s),
    ensures
        forall|j: int|
            0 <= j < text_lines(s).len() ==> no_line_breaks(#[trigger] text_lines(s)[j]),
{
    lemma_split_rejoin(s);
    if s.len() > 0 {
        let p = split_newlines(s);
        assert forall|j: int| 0 <= j < text_lines(s).len() implies no_line_breaks(
            #[trigger] text_lines(s)[j],
        ) by {
            if j < p.len() - 1 {
                assert(no_line_breaks(p[j]));
                assert(text_lines(s)[j] == strip_cr(p[j]));
            } else {
                assert(text_lines(s)[j] == p[p.len() - 1]);
                assert(no_line_breaks(p[p.len() - 1]));
            }
        }
    }
}

/// Joining two texts without line breaks gives one without line breaks.
pub proof fn lemma_no_line_breaks_concat(a: Seq<char>, b: Seq<char>)
    requires
        no_line_breaks(a),
        no_line_breaks(b),
    ensures
        no_line_breaks(a + b),
{
    assert forall|k: int| 0 <= k < (a + b).len() implies (a + b)[k] != '\n' && (a + b)[k]
        != '\r' by {
        if k < a.len() {
            assert((a + b)[k] == a[k]);
        } else {
            assert((a + b)[k] == b[k - a.len()]);
        }
    }
}

/// A part of a text without line breaks has none either.
pub proof fn lemma_no_line_breaks_subrange(s: Seq<char>, i: int, j: int)
    requires
        no_line_breaks(s),
        0 <= i <= j <= s.len(),
    ensures
        no_line_breaks(s.subrange(i, j)),
{
    assert forall|k: int| 0 <= k < s.subrange(i, j).len() implies s.subrange(i, j)[k] != '\n'
        && s.subrange(i, j)[k] != '\r' by {
        assert(s.subrange(i, j)[k] == s[i + k]);
    }
}

/// `trim_start(s)` is a suffix of `s` after whitespace, and starts with a
/// character that is not whitespace where it is not empty.
pub proof fn lemma_trim_start_shape(s: Seq<char>)
    ensures
        trim_start(s).len() <= s.len(),
        trim_start(s) == s.skip(s.len() - trim_start(s).len()),
        forall|k: int| 0 <= k < s.len() - trim_start(s).len() ==> is_ws(#[trigger] s[k]),
        trim_start(s).len() > 0 ==> !is_ws(trim_start(s)[0]),
    decreases s.len(),
{
    if s.len() > 0 && is_ws(s[0]) {
        lemma_trim_start_shape(s.drop_first());
        let t = trim_start(s);
        assert forall|k: int| 0 <= k < s.len() - t.len() implies is_ws(#[trigger] s[k]) by {
            if k > 0 {
                assert(s[k] == s.drop_first()[k - 1]);
            }
        }
        assert(s.drop_first().skip(s.drop_first().len() - t.len()) =~= s.skip(s.len() - t.len()));
    } else {
        assert(s.skip(0) =~= s);
    }
}

/// `trim_end(s)` is a prefix of `s`, and ends with a character that is not
/// whitespace where it is not empty.
pub proof fn lemma_trim_end_shape(s: Seq<char>)
    ensures
        trim_end(s) == s.take(trim_end(s).len() as int),
        trim_end(s).len() <= s.len(),
        trim_end(s).len() > 0 ==> !is_ws(trim_end(s).last()),
    decreases s.len(),
{
    if s.len() > 0 && is_ws(s.last()) {
        lemma_trim_end_shape(s.drop_last());
        assert(s.drop_last().take(trim_end(s).len() as int) =~= s.take(trim_end(s).len() as int));
    } else {
        assert(s.take(s.len() as int) =~= s);
    }
}

/// Trimming `w + r`, where `w` is whitespace and `r` starts and ends with
/// other characters, leaves `r`.
pub proof fn lemma_trim_padded(w: Seq<char>, r: Seq<char>)
    requires
        forall|k: int| 0 <= k < w.len() ==> is_ws(#[trigger] w[k]),
        r.len() > 0,
        !is_ws(r[0]),
        !is_ws(r.last()),
    ensures
        trim(w + r) == r,
    decreases w.len(),
{
    if w.len() > 0 {
        assert((w + r).drop_first() =~= w.drop_first() + r);
        assert((w + r)[0] == w[0]);
        lemma_trim_padded(w.drop_first(), r);
    } else {
        assert(w + r =~= r);
        assert(trim_start(r) == r);
    }
}

/// Trimming keeps a text free of line breaks.
pub proof fn lemma_no_line_breaks_trim(s: Seq<char>)
    requires
        no_line_breaks(s),
    ensures
        no_line_breaks(trim(s)),
{
    lemma_trim_start_shape(s);
    let t = trim_start(s);
    lemma_no_line_breaks_subrange(s, s.len() - t.len(), s.len() as int);
    assert(s.subrange(s.len() - t.len(), s.len() as int) =~= t);
    lemma_trim_end_shape(t);
    lemma_no_line_breaks_subrange(t, 0, trim_end(t).len() as int);
    assert(t.subrange(0, trim_end(t).len() as int) =~= trim_end(t));
}

/// Text after a line that holds more than whitespace keeps its
/// indentation.
pub proof fn lemma_trim_start_concat(a: Seq<char>, b: Seq<char>)
    requires
        trim_start(a).len() > 0,
    ensures
        trim_start(a + b) == trim_start(a) + b,
        leading_ws(a + b) == leading_ws(a),
    decreases a.len(),
{
    if a.len() > 0 && is_ws(a[0]) {
        assert((a + b).drop_first() =~= a.drop_first() + b);
        assert((a + b)[0] == a[0]);
        lemma_trim_start_concat(a.drop_first(), b);
    } else {
        assert(a.len() > 0);
        assert((a + b)[0] == a[0]);
    }
    let t = trim_start(a);
    lemma_trim_start_shape(a);
    assert(trim_start(a + b) == t + b);
    assert((a + b).len() - (t + b).len() == a.len() - t.len());
    assert((a + b).take(a.len() - t.len()) =~= a.take(a.len() - t.len()));
}

/// Text that ends in a character other than whitespace keeps that
/// character at the end when trimmed.
pub proof fn lemma_trim_keeps_last(s: Seq<char>)
    requires
        s.len() > 0,
        !is_ws(s.last()),
    ensures
        trim_end(s) == s,
        trim(s).len() > 0,
        trim(s).last() == s.last(),
{
    lemma_trim_start_shape(s);
    let t = trim_start(s);
    if t.len() == 0 {
        assert(is_ws(s[s.len() - 1]));
    }
    assert(t.last() == s.last());
}

/// A suffix cut at a byte offset of a text without line breaks has none.
pub proof fn lemma_skip_bytes_no_breaks(s: Seq<char>, k: int)
    requires
        no_line_breaks(s),
    ensures
        skip_bytes(s, k) matches Some(r) ==> no_line_breaks(r),
    decreases s.len(),
{
    if k != 0 && !(k < 0 || s.len() == 0 || k < char_width(s[0])) {
        lemma_no_line_breaks_subrange(s, 1, s.len() as int);
        assert(s.subrange(1, s.len() as int) =~= s.drop_first());
        lemma_skip_bytes_no_breaks(s.drop_first(), k - char_width(s[0]));
    }
}

/// Lines without line breaks, each with a line feed, hold no carriage
/// return.
pub proof fn lemma_terminated_no_cr(ls: Seq<Seq<char>>)
    requires
        forall|j: int| 0 <= j < ls.len() ==> no_line_breaks(#[trigger] ls[j]),
    ensures
        no_cr(terminated(ls)),
    decreases ls.len(),
{
    if ls.len() > 0 {
        lemma_terminated_no_cr(ls.drop_first());
        let a = ls[0] + seq!['\n'];
        let b = terminated(ls.drop_first());
        assert(no_line_breaks(ls[0]));
        assert forall|k: int| 0 <= k < (a + b).len() implies (a + b)[k] != '\r' by {
            if k < ls[0].len() {
                assert((a + b)[k] == ls[0][k]);
            } else if k == ls[0].len() {
                assert((a + b)[k] == '\n');
            } else {
                assert((a + b)[k] == b[k - a.len()]);
            }
        }
    }
}

/// `str::get(k..)`: where `k` is a character boundary the result is the
/// suffix after the characters whose encoding takes `k` bytes, and where no
/// prefix of `s` takes exactly `k` bytes there is no result.
pub proof fn lemma_skip_bytes_boundary(s: Seq<char>, k: int)
    ensures
        skip_bytes(s, k) matches Some(r) ==> exists|n: int|
            0 <= n <= s.len() && r == s.skip(n) && byte_len(#[trigger] s.take(n)) == k,
        skip_bytes(s, k) is None ==> forall|n: int|
            0 <= n <= s.len() ==> byte_len(#[trigger] s.take(n)) != k,
    decreases s.len(),
{
    assert(s.take(0) =~= Seq::<char>::empty());
    assert(byte_len(Seq::<char>::empty()) == 0);
    if k == 0 {
        assert(s.skip(0) =~= s);
        assert(byte_len(s.take(0)) == 0);
    } else if k < 0 || s.len() == 0 || k < char_width(s[0]) {
        assert forall|n: int| 0 <= n <= s.len() implies byte_len(#[trigger] s.take(n)) != k by {
            if n > 0 {
                assert(s.take(n) =~= seq![s[0]] + s.take(n).drop_first());
                lemma_byte_len_concat(seq![s[0]], s.take(n).drop_first());
                assert(seq![s[0]].drop_first() =~= Seq::<char>::empty());
                assert(byte_len(seq![s[0]]) == char_width(s[0]) + byte_len(Seq::<char>::empty()));
            }
        }
    } else {
        let t = s.drop_first();
        let w = char_width(s[0]);
        lemma_skip_bytes_boundary(t, k - w);
        assert forall|n: int| 1 <= n <= s.len() implies byte_len(#[trigger] s.take(n)) == w
            + byte_len(t.take(n - 1)) by {
            assert(s.take(n) =~= seq![s[0]] + t.take(n - 1));
            lemma_byte_len_concat(seq![s[0]], t.take(n - 1));
            assert(seq![s[0]].drop_first() =~= Seq::<char>::empty());
            assert(byte_len(seq![s[0]]) == w + byte_len(Seq::<char>::empty()));
        }
        if let Some(r) = skip_bytes(s, k) {
            let m = choose|m: int|
                0 <= m <= t.len() && r == t.skip(m) && byte_len(#[trigger] t.take(m)) == k - w;
            assert(t.skip(m) =~= s.skip(m + 1));
            assert(byte_len(s.take(m + 1)) == k);
        } else {
            assert forall|n: int| 0 <= n <= s.len() implies byte_len(#[trigger] s.take(n)) != k by {
                if n >= 1 {
                    assert(byte_len(t.take(n - 1)) != k - w);
                }
            }
        }
    }
}

/// Collects characters into a `String` (`String::from_iter`).
///
/// Trusted: the resulting string holds exactly the given characters, in order.
#[verifier::external_body]
pub fn string_from_chars(v: Vec<char>) -> (r: String)
    ensures
        r@ == v@,
{
    String::from_iter(v)
}

} // verus!
