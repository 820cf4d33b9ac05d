//! Character-level text handling: whitespace, lines, words, trimming,
//! splitting, joining and decimal numbers, each stated over `Seq<char>`.
use vstd::prelude::*;

verus! {

/// The views of a sequence of character buffers.
pub open spec fn views(v: Seq<Vec<char>>) -> Seq<Seq<char>> {
    v.map_values(|x: Vec<char>| x@)
}

/// The Unicode `White_Space` property, as `char::is_whitespace` uses it.
pub open spec fn is_ws(c: char) -> bool {
    ||| c == '\t' || c == '\n' || c == '\u{0B}' || c == '\u{0C}' || c == '\r' || c == ' '
    ||| c == '\u{85}' || c == '\u{A0}' || c == '\u{1680}'
    ||| ('\u{2000}' <= c && c <= '\u{200A}')
    ||| c == '\u{2028}' || c == '\u{2029}' || c == '\u{202F}' || c == '\u{205F}'
    ||| c == '\u{3000}'
}

/// Whether `c` is white space in the sense of Unicode.
pub fn is_whitespace(c: char) -> (r: bool)
    ensures
        r == is_ws(c),
{
    c == '\t' || c == '\n' || c == '\u{0B}' || c == '\u{0C}' || c == '\r' || c == ' '
        || c == '\u{85}' || c == '\u{A0}' || c == '\u{1680}' || ('\u{2000}' <= c && c
        <= '\u{200A}') || c == '\u{2028}' || c == '\u{2029}' || c == '\u{202F}' || c
        == '\u{205F}' || c == '\u{3000}'
}

/// The characters of a string slice.
pub fn chars_of(s: &str) -> (v: Vec<char>)
    ensures
        v@ == s@,
{
    let mut v: Vec<char> = Vec::new();
    for c in it: s.chars()
        invariant
            v@ == it.seq().take(it.index() as int),
            it.seq() == s@,
    {
        v.push(c);
    }
    v
}

/// `String::push`: appends one character.
#[verifier::external_body]
pub(crate) fn push_char(s: &mut String, c: char)
    ensures
        final(s)@ == old(s)@.push(c),
{
    s.push(c);
}

/// Appends the characters of `v` to `out`.
pub fn push_chars(out: &mut String, v: &Vec<char>)
    ensures
        final(out)@ == old(out)@ + v@,
{
    let ghost start = out@;
    for i in 0..v.len()
        invariant
            out@ == start + v@.take(i as int),
    {
        push_char(out, v[i]);
        assert(v@.take(i + 1) =~= v@.take(i as int).push(v@[i as int]));
    }
    assert(v@.take(v.len() as int) =~= v@);
}

/// A `String` holding the characters of `v`.
pub fn string_of(v: &Vec<char>) -> (s: String)
    ensures
        s@ == v@,
{
    let mut s = String::new();
    push_chars(&mut s, v);
    assert(s@ =~= v@);
    s
}

/// Appends a string slice to `out`.
pub fn push_str(out: &mut String, s: &str)
    ensures
        final(out)@ == old(out)@ + s@,
{
    let v = chars_of(s);
    push_chars(out, &v);
}

// ---------------------------------------------------------------- lines

/// `line` without one trailing carriage return.
pub open spec fn strip_cr(line: Seq<char>) -> Seq<char> {
    if line.len() > 0 && line.last() == '\r' {
        line.drop_last()
    } else {
        line
    }
}

/// Reading `s` from the left: the lines finished so far, and the line begun.
pub open spec fn scan_lines(s: Seq<char>) -> (Seq<Seq<char>>, Seq<char>)
    decreases s.len(),
{
    if s.len() == 0 {
        (seq![], seq![])
    } else {
        let (done, cur) = scan_lines(s.drop_last());
        if s.last() == '\n' {
            (done.push(strip_cr(cur)), seq![])
        } else {
            (done, cur.push(s.last()))
        }
    }
}

/// The lines of `s` as `str::lines` gives them: split at `\n`, a `\r` just
/// before a `\n` dropped, no line after a final `\n`.
pub open spec fn lines(s: Seq<char>) -> Seq<Seq<char>> {
    let (done, cur) = scan_lines(s);
    if cur.len() > 0 {
        done.push(cur)
    } else {
        done
    }
}

/// Splits `s` into its lines.
pub fn split_lines(s: &Vec<char>) -> (r: Vec<Vec<char>>)
    ensures
        views(r@) == lines(s@),
{
    let mut done: Vec<Vec<char>> = Vec::new();
    let mut cur: Vec<char> = Vec::new();
    for i in 0..s.len()
        invariant
            scan_lines(s@.take(i as int)) == (views(done@), cur@),
    {
        let c = s[i];
        assert(s@.take(i + 1).drop_last() =~= s@.take(i as int));
        if c == '\n' {
            if cur.len() > 0 && cur[cur.len() - 1] == '\r' {
                cur.pop();
            }
            let ghost before = done@;
            done.push(cur);
            assert(views(done@) =~= views(before).push(strip_cr(
                scan_lines(s@.take(i as int)).1,
            )));
            cur = Vec::new();
            assert(cur@ =~= Seq::<char>::empty());
        } else {
            cur.push(c);
        }
    }
    assert(s@.take(s.len() as int) =~= s@);
    if cur.len() > 0 {
        let ghost before = done@;
        done.push(cur);
        assert(views(done@) =~= views(before).push(scan_lines(s@).1));
    }
    done
}

// ---------------------------------------------------------------- words

/// Reading `s` from the left: the words finished so far, and the word begun.
pub open spec fn scan_words(s: Seq<char>) -> (Seq<Seq<char>>, Seq<char>)
    decreases s.len(),
{
    if s.len() == 0 {
        (seq![], seq![])
    } else {
        let (done, cur) = scan_words(s.drop_last());
        if is_ws(s.last()) {
            if cur.len() > 0 {
                (done.push(cur), seq![])
            } else {
                (done, cur)
            }
        } else {
            (done, cur.push(s.last()))
        }
    }
}

/// The words of `s` as `str::split_whitespace` gives them: the maximal runs
/// of characters that are not white space, in order.
pub open spec fn words(s: Seq<char>) -> Seq<Seq<char>> {
    let (done, cur) = scan_words(s);
    if cur.len() > 0 {
        done.push(cur)
    } else {
        done
    }
}

/// Splits `s` into its words.
pub fn split_words(s: &Vec<char>) -> (r: Vec<Vec<char>>)
    ensures
        views(r@) == words(s@),
{
    let mut done: Vec<Vec<char>> = Vec::new();
    let mut cur: Vec<char> = Vec::new();
    for i in 0..s.len()
        invariant
            scan_words(s@.take(i as int)) == (views(done@), cur@),
    {
        let c = s[i];
        assert(s@.take(i + 1).drop_last() =~= s@.take(i as int));
        if is_whitespace(c) {
            if cur.len() > 0 {
                let ghost before = done@;
                done.push(cur);
                assert(views(done@) =~= views(before).push(scan_words(s@.take(i as int)).1));
                cur = Vec::new();
                assert(cur@ =~= Seq::<char>::empty());
            }
        } else {
            cur.push(c);
        }
    }
    assert(s@.take(s.len() as int) =~= s@);
    if cur.len() > 0 {
        let ghost before = done@;
        done.push(cur);
        assert(views(done@) =~= views(before).push(scan_words(s@).1));
    }
    done
}

// ---------------------------------------------------------------- trim

/// `s` without its leading white space.
pub open spec fn trim_start(s: Seq<char>) -> Seq<char>
    decreases s.len(),
{
    if s.len() > 0 && is_ws(s[0]) {
        trim_start(s.drop_first())
    } else {
        s
    }
}

/// `s` without its trailing white space.
pub open spec fn trim_end(s: Seq<char>) -> Seq<char>
    decreases s.len(),
{
    if s.len() > 0 && is_ws(s.last()) {
        trim_end(s.drop_last())
    } else {
        s
    }
}

/// `s` without leading and trailing white space, as `str::trim` gives it.
pub open spec fn trim(s: Seq<char>) -> Seq<char> {
    trim_end(trim_start(s))
}

/// Copies `s[from..to]`.
pub fn copy_range(s: &Vec<char>, from: usize, to: usize) -> (r: Vec<char>)
    requires
        from <= to <= s.len(),
    ensures
        r@ == s@.subrange(from as int, to as int),
{
    let mut r: Vec<char> = Vec::new();
    let mut i = from;
    while i < to
        invariant
            from <= i <= to <= s.len(),
            r@ == s@.subrange(from as int, i as int),
        decreases to - i,
    {
        r.push(s[i]);
        assert(s@.subrange(from as int, i + 1) =~= s@.subrange(from as int, i as int).push(
            s@[i as int],
        ));
        i += 1;
    }
    r
}

/// Removes leading and trailing white space.
pub fn trim_chars(s: &Vec<char>) -> (r: Vec<char>)
    ensures
        r@ == trim(s@),
{
    let n = s.len();
    let mut i: usize = 0;
    assert(s@.skip(0) =~= s@);
    while i < n && is_whitespace(s[i])
        invariant
            0 <= i <= n == s.len(),
            trim_start(s@) == trim_start(s@.skip(i as int)),
        decreases n - i,
    {
        assert(s@.skip(i as int).drop_first() =~= s@.skip(i + 1));
        i += 1;
    }
    let ghost t = s@.skip(i as int);
    assert(trim_start(s@) == t);
    let mut j: usize = n;
    assert(t.take(t.len() as int) =~= t);
    assert(s@.subrange(i as int, n as int) =~= t);
    while j > i && is_whitespace(s[j - 1])
        invariant
            i <= j <= n == s.len(),
            trim_end(t) == trim_end(s@.subrange(i as int, j as int)),
        decreases j - i,
    {
        assert(s@.subrange(i as int, j as int).drop_last() =~= s@.subrange(
            i as int,
            j - 1,
        ));
        j -= 1;
    }
    copy_range(s, i, j)
}

/// Whether `s` is empty after trimming, that is, all white space.
pub fn is_blank(s: &Vec<char>) -> (r: bool)
    ensures
        r == (trim(s@).len() == 0),
{
    trim_chars(s).len() == 0
}

// ---------------------------------------------------------------- split_once

/// `i` is the first position of `c` in `s`.
pub open spec fn first_at(s: Seq<char>, c: char, i: int) -> bool {
    &&& 0 <= i < s.len()
    &&& s[i] == c
    &&& forall|j: int| 0 <= j < i ==> s[j] != c
}

/// `s` split around the first `c`, as `str::split_once` gives it.
pub open spec fn split_once(s: Seq<char>, c: char) -> Option<(Seq<char>, Seq<char>)> {
    if exists|i: int| first_at(s, c, i) {
        let i = choose|i: int| first_at(s, c, i);
        Some((s.take(i), s.skip(i + 1)))
    } else {
        None
    }
}

/// Splits `s` around the first `c`.
pub fn split_once_at(s: &Vec<char>, c: char) -> (r: Option<(Vec<char>, Vec<char>)>)
    ensures
        match r {
            Some((a, b)) => split_once(s@, c) == Some((a@, b@)),
            None => split_once(s@, c) is None,
        },
{
    let n = s.len();
    for i in 0..n
        invariant
            n == s.len(),
            forall|j: int| 0 <= j < i ==> s@[j] != c,
    {
        if s[i] == c {
            assert(first_at(s@, c, i as int));
            assert(forall|k: int| first_at(s@, c, k) ==> k == i);
            let a = copy_range(s, 0, i);
            let b = copy_range(s, i + 1, n);
            assert(s@.subrange(0, i as int) =~= s@.take(i as int));
            assert(s@.subrange(i + 1, n as int) =~= s@.skip(i + 1));
            return Some((a, b));
        }
    }
    None
}

// ---------------------------------------------------------------- case

/// The ASCII lower case of `c`; other characters are kept.
pub open spec fn lower_char(c: char) -> char {
    if 'A' <= c && c <= 'Z' {
        ((c as u32) + 32) as char
    } else {
        c
    }
}

/// `s` in ASCII lower case, as `str::to_ascii_lowercase` gives it.
pub open spec fn lowercase(s: Seq<char>) -> Seq<char> {
    s.map_values(|c: char| lower_char(c))
}

/// Maps `s` to ASCII lower case.
pub fn to_lowercase(s: &Vec<char>) -> (r: Vec<char>)
    ensures
        r@ == lowercase(s@),
{
    let mut r: Vec<char> = Vec::new();
    for i in 0..s.len()
        invariant
            r@ == lowercase(s@.take(i as int)),
    {
        let c = s[i];
        let l = if 'A' <= c && c <= 'Z' {
            ((c as u8) + 32) as char
        } else {
            c
        };
        assert(l == lower_char(c));
        r.push(l);
        assert(lowercase(s@.take(i + 1)) =~= lowercase(s@.take(i as int)).push(lower_char(c)));
    }
    assert(s@.take(s.len() as int) =~= s@);
    r
}

// ---------------------------------------------------------------- join

/// The parts joined with `sep` between each two, as `join` on a slice gives it.
pub open spec fn join(parts: Seq<Seq<char>>, sep: Seq<char>) -> Seq<char>
    decreases parts.len(),
{
    if parts.len() == 0 {
        seq![]
    } else if parts.len() == 1 {
        parts[0]
    } else {
        join(parts.drop_last(), sep) + sep + parts.last()
    }
}

/// Joins `parts[from..]` with the single character `sep`.
pub fn join_from(parts: &Vec<Vec<char>>, from: usize, sep: char) -> (r: Vec<char>)
    requires
        from <= parts.len(),
    ensures
        r@ == join(views(parts@).skip(from as int), seq![sep]),
{
    let mut r: Vec<char> = Vec::new();
    let mut i = from;
    assert(views(parts@).subrange(from as int, from as int) =~= Seq::<Seq<char>>::empty());
    while i < parts.len()
        invariant
            from <= i <= parts.len(),
            r@ == join(views(parts@).subrange(from as int, i as int), seq![sep]),
        decreases parts.len() - i,
    {
        let ghost before = r@;
        let ghost ps = views(parts@).subrange(from as int, i + 1);
        assert(ps.drop_last() =~= views(parts@).subrange(from as int, i as int));
        assert(ps.last() == parts[i as int]@);
        if i > from {
            r.push(sep);
        }
        let part = &parts[i];
        for k in 0..part.len()
            invariant
                part == parts[i as int],
                r@ == (if i > from { before.push(sep) } else { before }) + part@.take(k as int),
        {
            r.push(part[k]);
            assert(part@.take(k + 1) =~= part@.take(k as int).push(part@[k as int]));
        }
        assert(part@.take(part.len() as int) =~= part@);
        if i > from {
            assert(r@ =~= before + seq![sep] + part@);
        } else {
            assert(before =~= Seq::<char>::empty());
            assert(r@ =~= part@);
        }
        i += 1;
    }
    assert(views(parts@).subrange(from as int, parts.len() as int) =~= views(parts@).skip(
        from as int,
    ));
    r
}

// ---------------------------------------------------------------- numbers

/// The ASCII digit for `d`, which is below ten.
pub open spec fn digit_char(d: nat) -> char {
    ((d + 48) as u32) as char
}

/// The decimal notation of `n`, without leading zeros.
pub open spec fn decimal(n: nat) -> Seq<char>
    decreases n,
{
    if n < 10 {
        seq![digit_char(n)]
    } else {
        decimal(n / 10).push(digit_char(n % 10))
    }
}

/// Appends the decimal notation of `n` to `out`.
pub fn push_decimal(out: &mut String, n: u128)
    ensures
        final(out)@ == old(out)@ + decimal(n as nat),
    decreases n,
{
    if n >= 10 {
        push_decimal(out, n / 10);
    }
    let d = (n % 10) as u8;
    let c = (d + 48) as char;
    assert(c == digit_char((n % 10) as nat));
    push_char(out, c);
}

/// Whether `c` is an ASCII digit.
pub open spec fn is_digit(c: char) -> bool {
    '0' <= c && c <= '9'
}

/// The value of the ASCII digit `c`.
pub open spec fn digit_value(c: char) -> nat {
    ((c as u32) - 48) as nat
}

/// The number that the decimal digits `s` write.
pub open spec fn digits_value(s: Seq<char>) -> nat
    decreases s.len(),
{
    if s.len() == 0 {
        0
    } else {
        digits_value(s.drop_last()) * 10 + digit_value(s.last())
    }
}

/// `s` with one leading `+` removed.
pub open spec fn unsigned_digits(s: Seq<char>) -> Seq<char> {
    if s.len() > 0 && s[0] == '+' {
        s.drop_first()
    } else {
        s
    }
}

/// What `str::parse::<u16>` gives: an optional `+`, then one or more ASCII
/// digits whose value fits in a `u16`.
pub open spec fn parse_u16(s: Seq<char>) -> Option<u16> {
    let d = unsigned_digits(s);
    if d.len() > 0 && (forall|i: int| 0 <= i < d.len() ==> is_digit(d[i])) && digits_value(d)
        <= 65535 {
        Some(digits_value(d) as u16)
    } else {
        None
    }
}

/// Reads a `u16` in decimal.
pub fn parse_u16_chars(s: &Vec<char>) -> (r: Option<u16>)
    ensures
        r == parse_u16(s@),
{
    let n = s.len();
    let start: usize = if n > 0 && s[0] == '+' {
        1
    } else {
        0
    };
    let ghost d = unsigned_digits(s@);
    assert(d =~= s@.skip(start as int));
    if start == n {
        return None;
    }
    let mut acc: u32 = 0;
    let mut i = start;
    while i < n
        invariant
            start <= i <= n == s.len(),
            d == s@.skip(start as int),
            d == unsigned_digits(s@),
            forall|k: int| 0 <= k < i - start ==> is_digit(d[k]),
            acc == if digits_value(d.take(i - start)) < 65536 {
                digits_value(d.take(i - start))
            } else {
                65536
            },
        decreases n - i,
    {
        let c = s[i];
        if !('0' <= c && c <= '9') {
            assert(!is_digit(d[i - start]));
            return None;
        }
        let v = (c as u32) - 48;
        assert(d.take(i + 1 - start).drop_last() =~= d.take(i - start));
        assert(d.take(i + 1 - start).last() == c);
        acc = if acc * 10 + v < 65536 {
            acc * 10 + v
        } else {
            65536
        };
        i += 1;
    }
    assert(d.take(n - start) =~= d);
    if acc < 65536 {
        Some(acc as u16)
    } else {
        None
    }
}

// ---------------------------------------------------------------- suffix

/// `s` without any number of trailing `c`, as `str::trim_end_matches` with a
/// character gives it.
pub open spec fn strip_trailing(s: Seq<char>, c: char) -> Seq<char>
    decreases s.len(),
{
    if s.len() > 0 && s.last() == c {
        strip_trailing(s.drop_last(), c)
    } else {
        s
    }
}

/// Removes every trailing `c` from `s`.
pub fn trim_end_char(s: &str, c: char) -> (r: Vec<char>)
    ensures
        r@ == strip_trailing(s@, c),
{
    let mut v = chars_of(s);
    while v.len() > 0 && v[v.len() - 1] == c
        invariant
            strip_trailing(s@, c) == strip_trailing(v@, c),
        decreases v.len(),
    {
        let ghost before = v@;
        v.pop();
        assert(v@ =~= before.drop_last());
    }
    v
}

// ---------------------------------------------------------------- lemmas

/// A word: one or more characters, none of them white space.
pub open spec fn plain_word(w: Seq<char>) -> bool {
    w.len() > 0 && forall|i: int| 0 <= i < w.len() ==> !is_ws(#[trigger] w[i])
}

/// Every entry of `ws` is a word.
pub open spec fn plain_words(ws: Seq<Seq<char>>) -> bool {
    forall|i: int| 0 <= i < ws.len() ==> plain_word(#[trigger] ws[i])
}

proof fn lemma_scan_words_append(p: Seq<char>, w: Seq<char>)
    requires
        forall|i: int| 0 <= i < w.len() ==> !is_ws(#[trigger] w[i]),
    ensures
        scan_words(p + w) == (scan_words(p).0, scan_words(p).1 + w),
    decreases w.len(),
{
    if w.len() == 0 {
        assert(p + w =~= p);
        assert(scan_words(p).1 + w =~= scan_words(p).1);
    } else {
        lemma_scan_words_append(p, w.drop_last());
        assert((p + w).drop_last() =~= p + w.drop_last());
        assert((p + w).last() == w.last());
        assert(!is_ws(w[w.len() - 1]));
        assert((scan_words(p).1 + w.drop_last()).push(w.last()) =~= scan_words(p).1 + w);
    }
}

proof fn lemma_scan_words_join(ws: Seq<Seq<char>>)
    requires
        ws.len() > 0,
        plain_words(ws),
    ensures
        scan_words(join(ws, seq![' '])) == (ws.drop_last(), ws.last()),
    decreases ws.len(),
{
    if ws.len() == 1 {
        assert(plain_word(ws[0]));
        lemma_scan_words_append(seq![], ws[0]);
        assert(Seq::<char>::empty() + ws[0] =~= ws[0]);
        assert(scan_words(seq![]) == (Seq::<Seq<char>>::empty(), Seq::<char>::empty()));
        assert(ws.drop_last() =~= Seq::<Seq<char>>::empty());
    } else {
        let d = ws.drop_last();
        assert(plain_words(d)) by {
            assert forall|i: int| 0 <= i < d.len() implies plain_word(#[trigger] d[i]) by {
                assert(d[i] == ws[i]);
            }
        }
        lemma_scan_words_join(d);
        let j = join(d, seq![' ']);
        let js = j + seq![' '];
        assert(js.drop_last() =~= j);
        assert(js.last() == ' ');
        assert(plain_word(d[d.len() - 1]));
        assert(d.drop_last().push(d.last()) =~= d);
        assert(scan_words(js) == (d, Seq::<char>::empty()));
        assert(plain_word(ws[ws.len() - 1]));
        lemma_scan_words_append(js, ws.last());
        assert(Seq::<char>::empty() + ws.last() =~= ws.last());
    }
}

/// The words of words joined by single spaces are those words.
pub proof fn lemma_words_of_join(ws: Seq<Seq<char>>)
    requires
        ws.len() > 0,
        plain_words(ws),
    ensures
        words(join(ws, seq![' '])) == ws,
{
    lemma_scan_words_join(ws);
    assert(plain_word(ws[ws.len() - 1]));
    assert(ws.drop_last().push(ws.last()) =~= ws);
}

/// Joining `a` before a non-empty list puts `a` and a separator first.
pub proof fn lemma_join_prepend(a: Seq<char>, ws: Seq<Seq<char>>, sep: Seq<char>)
    requires
        ws.len() > 0,
    ensures
        join(seq![a] + ws, sep) == a + sep + join(ws, sep),
    decreases ws.len(),
{
    let all = seq![a] + ws;
    assert(all.last() == ws.last());
    assert(all.len() >= 2);
    assert(join(all, sep) == join(all.drop_last(), sep) + sep + all.last());
    if ws.len() == 1 {
        assert(all.drop_last() =~= seq![a]);
        assert(join(seq![a], sep) == a);
        assert(join(ws, sep) == ws[0]);
    } else {
        assert(join(ws, sep) == join(ws.drop_last(), sep) + sep + ws.last());
        assert(all.drop_last() =~= seq![a] + ws.drop_last());
        lemma_join_prepend(a, ws.drop_last(), sep);
        assert(a + sep + join(ws.drop_last(), sep) + sep + ws.last() =~= a + sep + (join(
            ws.drop_last(),
            sep,
        ) + sep + ws.last()));
    }
}

/// Words joined by single spaces hold no line feed.
pub proof fn lemma_join_no_newline(ws: Seq<Seq<char>>)
    requires
        plain_words(ws),
    ensures
        forall|i: int| 0 <= i < join(ws, seq![' ']).len() ==> #[trigger] join(ws, seq![' '])[i] != '\n',
    decreases ws.len(),
{
    if ws.len() == 1 {
        assert(plain_word(ws[0]));
    } else if ws.len() > 1 {
        let d = ws.drop_last();
        assert(plain_words(d)) by {
            assert forall|i: int| 0 <= i < d.len() implies plain_word(#[trigger] d[i]) by {
                assert(d[i] == ws[i]);
            }
        }
        lemma_join_no_newline(d);
        assert(plain_word(ws[ws.len() - 1]));
        let j = join(d, seq![' ']);
        let l = ws.last();
        assert forall|i: int| 0 <= i < join(ws, seq![' ']).len() implies #[trigger] join(ws, seq![' '])[i] != '\n' by {
            if i < j.len() {
                assert(join(ws, seq![' '])[i] == j[i]);
            } else if i == j.len() {
                assert(join(ws, seq![' '])[i] == ' ');
            } else {
                assert(join(ws, seq![' '])[i] == l[i - j.len() - 1]);
            }
        }
    }
}

pub proof fn lemma_scan_lines_append(p: Seq<char>, x: Seq<char>)
    requires
        forall|i: int| 0 <= i < x.len() ==> #[trigger] x[i] != '\n',
    ensures
        scan_lines(p + x) == (scan_lines(p).0, scan_lines(p).1 + x),
    decreases x.len(),
{
    if x.len() == 0 {
        assert(p + x =~= p);
        assert(scan_lines(p).1 + x =~= scan_lines(p).1);
    } else {
        lemma_scan_lines_append(p, x.drop_last());
        assert((p + x).drop_last() =~= p + x.drop_last());
        assert((p + x).last() == x.last());
        assert(x[x.len() - 1] != '\n');
        assert((scan_lines(p).1 + x.drop_last()).push(x.last()) =~= scan_lines(p).1 + x);
    }
}

pub proof fn lemma_scan_lines_prefix(p: Seq<char>, q: Seq<char>)
    ensures
        scan_lines(p).0.len() <= scan_lines(p + q).0.len(),
        forall|i: int|
            0 <= i < scan_lines(p).0.len() ==> #[trigger] scan_lines(p + q).0[i] == scan_lines(p).0[i],
    decreases q.len(),
{
    if q.len() == 0 {
        assert(p + q =~= p);
    } else {
        lemma_scan_lines_prefix(p, q.drop_last());
        assert((p + q).drop_last() =~= p + q.drop_last());
    }
}

/// Lines before and after a line ended by CR LF.
pub proof fn lemma_lines_after_crlf(p: Seq<char>, line: Seq<char>, rest: Seq<char>)
    requires
        lines(p).len() == scan_lines(p).0.len(),
        scan_lines(p).1.len() == 0,
        forall|i: int| 0 <= i < line.len() ==> #[trigger] line[i] != '\n',
    ensures
        scan_lines(p + line + seq!['\r', '\n']) == (scan_lines(p).0.push(line), Seq::<char>::empty()),
        lines(p + line + seq!['\r', '\n'] + rest).len() > scan_lines(p).0.len(),
        lines(p + line + seq!['\r', '\n'] + rest)[scan_lines(p).0.len() as int] == line,
{
    let lr = line + seq!['\r'];
    assert forall|i: int| 0 <= i < lr.len() implies #[trigger] lr[i] != '\n' by {
        if i < line.len() {
            assert(lr[i] == line[i]);
        }
    }
    lemma_scan_lines_append(p, lr);
    assert(scan_lines(p).1 + lr =~= lr);
    let q = p + line + seq!['\r', '\n'];
    assert(q.drop_last() =~= p + lr);
    assert(q.last() == '\n');
    assert(strip_cr(lr) =~= line);
    let done = scan_lines(q).0;
    lemma_scan_lines_prefix(q, rest);
    let all = q + rest;
    let (d2, c2) = scan_lines(all);
    if c2.len() > 0 {
        assert(lines(all) == d2.push(c2));
    }
    assert(done.len() == scan_lines(p).0.len() + 1);
    assert(done[scan_lines(p).0.len() as int] == line);
}

/// The digits of a number are ASCII digits, and they write the number.
pub proof fn lemma_decimal(n: nat)
    ensures
        decimal(n).len() > 0,
        forall|i: int| 0 <= i < decimal(n).len() ==> is_digit(#[trigger] decimal(n)[i]),
        digits_value(decimal(n)) == n,
    decreases n,
{
    let d = digit_char(n % 10);
    assert(is_digit(d) && digit_value(d) == n % 10);
    if n < 10 {
        assert(decimal(n) == seq![d]);
        assert(seq![d].drop_last() =~= Seq::<char>::empty());
        assert(digits_value(seq![d]) == digits_value(Seq::<char>::empty()) * 10 + digit_value(d));
    } else {
        lemma_decimal(n / 10);
        let s = decimal(n);
        assert(s == decimal(n / 10).push(d));
        assert(s.drop_last() =~= decimal(n / 10));
        assert(s.last() == d);
        assert(digits_value(s) == digits_value(decimal(n / 10)) * 10 + digit_value(d));
        assert((n / 10) * 10 + n % 10 == n) by (nonlinear_arith);
        assert forall|i: int| 0 <= i < s.len() implies is_digit(#[trigger] s[i]) by {
            if i < s.len() - 1 {
                assert(s[i] == decimal(n / 10)[i]);
            }
        }
    }
}

/// Reading the decimal notation of a `u16` gives it back.
pub proof fn lemma_parse_decimal(c: u16)
    ensures
        parse_u16(decimal(c as nat)) == Some(c),
{
    lemma_decimal(c as nat);
    let s = decimal(c as nat);
    assert(is_digit(s[0]));
    assert(unsigned_digits(s) == s);
}

/// Lines that end in no CR and hold no LF, joined by LF after text that
/// ends a line, read as those lines.
pub proof fn lemma_scan_lines_join(p: Seq<char>, ls: Seq<Seq<char>>)
    requires
        ls.len() > 0,
        scan_lines(p).1.len() == 0,
        forall|i: int, j: int|
            0 <= i < ls.len() && 0 <= j < ls[i].len() ==> #[trigger] ls[i][j] != '\n' && ls[i][j]
                != '\r',
    ensures
        scan_lines(p + join(ls, seq!['\n'])) == (scan_lines(p).0 + ls.drop_last(), ls.last()),
    decreases ls.len(),
{
    if ls.len() == 1 {
        assert forall|j: int| 0 <= j < ls[0].len() implies #[trigger] ls[0][j] != '\n' by {
            assert(ls[0][j] != '\n');
        }
        lemma_scan_lines_append(p, ls[0]);
        assert(scan_lines(p).1 + ls[0] =~= ls[0]);
        assert(scan_lines(p).0 + ls.drop_last() =~= scan_lines(p).0);
    } else {
        let d = ls.drop_last();
        assert forall|i: int, j: int| 0 <= i < d.len() && 0 <= j < d[i].len() implies #[trigger] d[i][j]
            != '\n' && d[i][j] != '\r' by {
            assert(d[i] == ls[i]);
        }
        lemma_scan_lines_join(p, d);
        let q = p + join(d, seq!['\n']) + seq!['\n'];
        assert(q.drop_last() =~= p + join(d, seq!['\n']));
        assert(q.last() == '\n');
        let l = d.last();
        assert(l.len() == 0 || l[l.len() - 1] != '\r') by {
            if l.len() > 0 {
                assert(d[d.len() - 1][l.len() - 1] != '\r');
            }
        }
        assert(strip_cr(l) == l);
        assert((scan_lines(p).0 + d.drop_last()).push(l) =~= scan_lines(p).0 + d);
        assert(scan_lines(q) == (scan_lines(p).0 + d, Seq::<char>::empty()));
        let last = ls.last();
        assert forall|j: int| 0 <= j < last.len() implies #[trigger] last[j] != '\n' by {
            assert(ls[ls.len() - 1][j] != '\n');
        }
        lemma_scan_lines_append(q, last);
        assert(Seq::<char>::empty() + last =~= last);
        assert(p + join(ls, seq!['\n']) =~= q + last);
    }
}

/// A character that is not white space survives trimming.
pub proof fn lemma_trim_keeps(s: Seq<char>, j: int)
    requires
        0 <= j < s.len(),
        !is_ws(s[j]),
    ensures
        trim(s).len() > 0,
{
    lemma_trim_start_keeps(s, j);
    let t = trim_start(s);
    let k = choose|k: int| 0 <= k < t.len() && !is_ws(#[trigger] t[k]);
    lemma_trim_end_keeps(t, k);
}

proof fn lemma_trim_start_keeps(s: Seq<char>, j: int)
    requires
        0 <= j < s.len(),
        !is_ws(s[j]),
    ensures
        exists|k: int| 0 <= k < trim_start(s).len() && !is_ws(#[trigger] trim_start(s)[k]),
    decreases s.len(),
{
    if s.len() > 0 && is_ws(s[0]) {
        assert(j > 0);
        assert(s.drop_first()[j - 1] == s[j]);
        lemma_trim_start_keeps(s.drop_first(), j - 1);
        assert(trim_start(s) == trim_start(s.drop_first()));
    } else {
        assert(!is_ws(trim_start(s)[j]));
    }
}

proof fn lemma_trim_end_keeps(s: Seq<char>, j: int)
    requires
        0 <= j < s.len(),
        !is_ws(s[j]),
    ensures
        trim_end(s).len() > 0,
    decreases s.len(),
{
    if s.len() > 0 && is_ws(s.last()) {
        assert(s.drop_last()[j] == s[j]);
        lemma_trim_end_keeps(s.drop_last(), j);
    }
}

} // verus!
