//! Character-level text handling: lines, comma-separated fields, substring
//! search and decimal integer parsing, each stated over `Seq<char>`.
use vstd::prelude::*;
use vstd::string::StrSliceExecFns;

verus! {

broadcast use vstd::string::group_string_axioms;

// ---------------------------------------------------------------------------
// Specifications
// ---------------------------------------------------------------------------

/// The pieces of `s` between occurrences of `sep` (std's `str::split` with a
/// `char` pattern): there is always at least one piece, and the empty text has
/// exactly one, empty, piece.
pub open spec fn split_on(s: Seq<char>, sep: char) -> Seq<Seq<char>>
    decreases s.len(),
{
    if s.len() == 0 {
        seq![Seq::<char>::empty()]
    } else {
        let head = split_on(s.drop_last(), sep);
        if s.last() == sep {
            head.push(Seq::<char>::empty())
        } else {
            head.update(head.len() - 1, head.last().push(s.last()))
        }
    }
}

/// A piece without the one carriage return that may end it.
pub open spec fn strip_cr(p: Seq<char>) -> Seq<char> {
    if p.len() > 0 && p.last() == '\r' {
        p.drop_last()
    } else {
        p
    }
}

/// The lines of `s` as std's `str::lines` yields them: split at `\n`, a line
/// that a `\n` ends loses one `\r` before it, and a final empty piece (the text
/// ends with a line ending, or is empty) is no line.
pub open spec fn lines_of(s: Seq<char>) -> Seq<Seq<char>> {
    let pieces = split_on(s, '\n');
    let done = pieces.drop_last().map_values(|p: Seq<char>| strip_cr(p));
    if pieces.last().len() == 0 {
        done
    } else {
        done.push(pieces.last())
    }
}

/// The lines after the first, header, line (std's `lines().skip(1)`).
pub open spec fn data_lines(file: Seq<char>) -> Seq<Seq<char>> {
    let ls = lines_of(file);
    if ls.len() == 0 {
        ls
    } else {
        ls.drop_first()
    }
}

/// The pieces joined by single `sep` characters (std's `join`).
pub open spec fn join_on(ps: Seq<Seq<char>>, sep: char) -> Seq<char>
    decreases ps.len(),
{
    if ps.len() == 0 {
        Seq::<char>::empty()
    } else if ps.len() == 1 {
        ps[0]
    } else {
        join_on(ps.drop_last(), sep) + seq![sep] + ps.last()
    }
}

/// The lines joined by single `\n` characters (std's `join("\n")`).
pub open spec fn join_lines(ls: Seq<Seq<char>>) -> Seq<char> {
    join_on(ls, '\n')
}

/// `needle` occurs in `hay` (std's `str::contains` with a string pattern).
pub open spec fn has_substring(hay: Seq<char>, needle: Seq<char>) -> bool {
    exists|i: int|
        0 <= i && i + needle.len() <= hay.len() && #[trigger] hay.subrange(i, i + needle.len())
            == needle
}

/// The character is an ASCII decimal digit.
pub open spec fn is_digit(c: char) -> bool {
    '0' <= c && c <= '9'
}

/// Every character is an ASCII decimal digit.
pub open spec fn all_digits(s: Seq<char>) -> bool {
    forall|i: int| 0 <= i < s.len() ==> is_digit(#[trigger] s[i])
}

/// The number that a string of decimal digits denotes.
pub open spec fn digits_value(s: Seq<char>) -> int
    decreases s.len(),
{
    if s.len() == 0 {
        0
    } else {
        digits_value(s.drop_last()) * 10 + (s.last() as int - '0' as int)
    }
}

/// What std's `str::parse::<u16>` gives: an optional leading `+`, then at least
/// one decimal digit, and a value that fits in 16 bits.
pub open spec fn spec_parse_u16(s: Seq<char>) -> Option<u16> {
    let digits = if s.len() > 0 && s[0] == '+' {
        s.drop_first()
    } else {
        s
    };
    if digits.len() > 0 && all_digits(digits) && digits_value(digits) <= 65535 {
        Some(digits_value(digits) as u16)
    } else {
        None
    }
}

// ---------------------------------------------------------------------------
// Lemmas
// ---------------------------------------------------------------------------

/// Splitting gives at least one piece.
pub proof fn lemma_split_nonempty(s: Seq<char>, sep: char)
    ensures
        split_on(s, sep).len() >= 1,
    decreases s.len(),
{
    if s.len() > 0 {
        lemma_split_nonempty(s.drop_last(), sep);
    }
}

/// A piece that a separator has closed in a prefix of `s` is a piece of `s`.
pub proof fn lemma_split_prefix(s: Seq<char>, sep: char, j: int)
    requires
        0 <= j <= s.len(),
    ensures
        split_on(s.take(j), sep).len() <= split_on(s, sep).len(),
        forall|m: int|
            0 <= m < split_on(s.take(j), sep).len() - 1 ==> #[trigger] split_on(s, sep)[m]
                == split_on(s.take(j), sep)[m],
    decreases s.len(),
{
    if j == s.len() {
        assert(s.take(j) =~= s);
    } else {
        let d = s.drop_last();
        assert(d.take(j) =~= s.take(j));
        lemma_split_prefix(d, sep, j);
        lemma_split_nonempty(d, sep);
    }
}

/// The value of an all-digit string is at least that of any prefix.
pub proof fn lemma_digits_value_grows(s: Seq<char>, k: int)
    requires
        0 <= k <= s.len(),
        all_digits(s),
    ensures
        digits_value(s.take(k)) <= digits_value(s),
        0 <= digits_value(s),
    decreases s.len(),
{
    if s.len() > 0 {
        let d = s.drop_last();
        assert(all_digits(d)) by {
            assert forall|i: int| 0 <= i < d.len() implies is_digit(#[trigger] d[i]) by {
                assert(d[i] == s[i]);
            }
        }
        assert(is_digit(s[s.len() - 1]));
        if k == s.len() {
            assert(s.take(k) =~= s);
            lemma_digits_value_grows(d, 0);
        } else {
            assert(d.take(k) =~= s.take(k));
            lemma_digits_value_grows(d, k);
        }
    } else {
        assert(s.take(k) =~= s);
    }
}

/// Every piece of a split is free of the separator.
pub proof fn lemma_split_pieces_free(s: Seq<char>, sep: char)
    ensures
        forall|i: int| 0 <= i < split_on(s, sep).len() ==> !(#[trigger] split_on(s, sep)[i]).contains(sep),
    decreases s.len(),
{
    if s.len() > 0 {
        let d = s.drop_last();
        lemma_split_pieces_free(d, sep);
        lemma_split_nonempty(d, sep);
        let head = split_on(d, sep);
        if s.last() != sep {
            let ext = head.last().push(s.last());
            assert forall|k: int| 0 <= k < ext.len() implies ext[k] != sep by {
                if k < head.last().len() {
                    assert(ext[k] == head.last()[k]);
                    assert(head[head.len() - 1] == head.last());
                }
            }
        }
    }
}

/// Joining the pieces of a split gives back the text: the fields of a line,
/// joined by commas, are the line.
pub proof fn law_join_split(s: Seq<char>, sep: char)
    ensures
        join_on(split_on(s, sep), sep) == s,
    decreases s.len(),
{
    if s.len() > 0 {
        let d = s.drop_last();
        law_join_split(d, sep);
        lemma_split_nonempty(d, sep);
        let head = split_on(d, sep);
        if s.last() == sep {
            let ps = head.push(Seq::<char>::empty());
            assert(ps.drop_last() =~= head);
            assert(join_on(ps, sep) =~= s);
        } else {
            let ps = head.update(head.len() - 1, head.last().push(s.last()));
            if head.len() == 1 {
                assert(join_on(ps, sep) =~= s);
            } else {
                assert(ps.drop_last() =~= head.drop_last());
                assert(join_on(head, sep) == join_on(head.drop_last(), sep) + seq![sep] + head.last());
                assert(ps.last() == head.last().push(s.last()));
                assert(s =~= d.push(s.last()));
                assert(join_on(ps, sep) =~= s);
            }
        }
    }
}

/// Splitting text that has no separator gives the text as its only piece.
proof fn lemma_split_free(s: Seq<char>, sep: char)
    requires
        !s.contains(sep),
    ensures
        split_on(s, sep) == seq![s],
    decreases s.len(),
{
    if s.len() > 0 {
        let d = s.drop_last();
        assert(!d.contains(sep)) by {
            if d.contains(sep) {
                let k = choose|k: int| 0 <= k < d.len() && d[k] == sep;
                assert(s[k] == sep);
            }
        }
        lemma_split_free(d, sep);
        assert(s[s.len() - 1] == s.last());
        assert(d.push(s.last()) =~= s);
        assert(seq![d].update(0, d.push(s.last())) =~= seq![s]);
    } else {
        assert(s =~= Seq::<char>::empty());
    }
}

/// Splitting `x`, a separator and a separator-free `tail` adds `tail` as a
/// piece after those of `x`.
proof fn lemma_split_append(x: Seq<char>, sep: char, tail: Seq<char>)
    requires
        !tail.contains(sep),
    ensures
        split_on(x + seq![sep] + tail, sep) == split_on(x, sep).push(tail),
    decreases tail.len(),
{
    lemma_split_nonempty(x, sep);
    if tail.len() == 0 {
        let t = x + seq![sep] + tail;
        assert(t.drop_last() =~= x);
        assert(tail =~= Seq::<char>::empty());
    } else {
        let shorter = tail.drop_last();
        assert(!shorter.contains(sep)) by {
            if shorter.contains(sep) {
                let k = choose|k: int| 0 <= k < shorter.len() && shorter[k] == sep;
                assert(tail[k] == sep);
            }
        }
        lemma_split_append(x, sep, shorter);
        let t = x + seq![sep] + tail;
        assert(t.drop_last() =~= x + seq![sep] + shorter);
        assert(t.last() == tail.last());
        assert(tail[tail.len() - 1] == tail.last());
        let before = split_on(x, sep).push(shorter);
        assert(shorter.push(tail.last()) =~= tail);
        assert(before.update(before.len() - 1, before.last().push(tail.last())) =~= split_on(x, sep).push(
            tail,
        ));
    }
}

/// Splitting separator-free pieces after joining them gives back the pieces.
pub proof fn law_split_join(ps: Seq<Seq<char>>, sep: char)
    requires
        ps.len() >= 1,
        forall|i: int| 0 <= i < ps.len() ==> !(#[trigger] ps[i]).contains(sep),
    ensures
        split_on(join_on(ps, sep), sep) == ps,
    decreases ps.len(),
{
    if ps.len() == 1 {
        lemma_split_free(ps[0], sep);
        assert(seq![ps[0]] =~= ps);
    } else {
        let init = ps.drop_last();
        assert forall|i: int| 0 <= i < init.len() implies !(#[trigger] init[i]).contains(sep) by {
            assert(init[i] == ps[i]);
        }
        law_split_join(init, sep);
        assert(ps[ps.len() - 1] == ps.last());
        lemma_split_append(join_on(init, sep), sep, ps.last());
        assert(init.push(ps.last()) =~= ps);
    }
}

/// No line contains a line feed.
pub proof fn lemma_lines_free(s: Seq<char>)
    ensures
        forall|i: int| 0 <= i < lines_of(s).len() ==> !(#[trigger] lines_of(s)[i]).contains('\n'),
{
    lemma_split_pieces_free(s, '\n');
    lemma_split_nonempty(s, '\n');
    let pieces = split_on(s, '\n');
    assert forall|i: int| 0 <= i < lines_of(s).len() implies !(#[trigger] lines_of(s)[i]).contains('\n') by {
        assert(pieces[pieces.len() - 1] == pieces.last());
        if i < pieces.len() - 1 {
            let p = pieces[i];
            let q = strip_cr(p);
            assert(lines_of(s)[i] == q);
            if q.contains('\n') {
                let k = choose|k: int| 0 <= k < q.len() && q[k] == '\n';
                assert(p[k] == '\n');
            }
        }
    }
}

/// Reading the lines of joined lines gives them back, where no line holds a
/// line feed, no line but the last ends with a carriage return, and the last
/// line is not empty.
pub proof fn law_lines_of_join(ls: Seq<Seq<char>>)
    requires
        forall|i: int| 0 <= i < ls.len() ==> !(#[trigger] ls[i]).contains('\n'),
        forall|i: int| 0 <= i < ls.len() - 1 ==> strip_cr(#[trigger] ls[i]) == ls[i],
        ls.len() > 0 ==> ls.last().len() > 0,
    ensures
        lines_of(join_lines(ls)) == ls,
{
    if ls.len() == 0 {
        assert(split_on(Seq::<char>::empty(), '\n').drop_last() =~= Seq::<Seq<char>>::empty());
        assert(lines_of(join_lines(ls)) =~= ls);
    } else {
        law_split_join(ls, '\n');
        assert(ls[ls.len() - 1] == ls.last());
        let done = ls.drop_last().map_values(|p: Seq<char>| strip_cr(p));
        assert(done =~= ls.drop_last());
        assert(ls.drop_last().push(ls.last()) =~= ls);
    }
}

// ---------------------------------------------------------------------------
// Executable functions
// ---------------------------------------------------------------------------

/// Appends one character (std's `String::push`).
#[verifier::external_body]
pub(crate) fn push_char(s: &mut String, c: char)
    ensures
        final(s)@ == old(s)@.push(c),
{
    s.push(c);
}

/// The characters of `s`, in order.
pub fn chars_of(s: &str) -> (v: Vec<char>)
    ensures
        v@ == s@,
{
    let mut v: Vec<char> = Vec::new();
    for c in it: s.chars()
        invariant
            v@ == it.seq().take(it.index()),
            it.seq() == s@,
    {
        v.push(c);
    }
    v
}

/// The characters `v[from..to]` as a `String`.
pub fn string_of(v: &Vec<char>, from: usize, to: usize) -> (r: String)
    requires
        from <= to <= v.len(),
    ensures
        r@ == v@.subrange(from as int, to as int),
{
    let mut r = String::new();
    let mut i = from;
    while i < to
        invariant
            from <= i <= to <= v.len(),
            r@ == v@.subrange(from as int, i as int),
        decreases to - i,
    {
        push_char(&mut r, v[i]);
        assert(v@.subrange(from as int, i + 1) =~= v@.subrange(from as int, i as int).push(v@[i as int]));
        i = i + 1;
    }
    r
}

/// The field at position `idx` (counting from 0) of a comma-separated line.
/// The line must have more than `idx` fields.
pub fn get_data_by_column(line: &str, idx: usize) -> (r: &str)
    requires
        idx < split_on(line@, ',').len(),
    ensures
        r@ == split_on(line@, ',')[idx as int],
{
    let chars = chars_of(line);
    let n = chars.len();
    let ghost s = line@;
    let mut k: usize = 0;
    let mut start: usize = 0;
    let mut j: usize = 0;
    assert(s.take(0) =~= Seq::<char>::empty());
    while j < n
        invariant
            n == chars@.len(),
            chars@ == s,
            s == line@,
            idx < split_on(s, ',').len(),
            0 <= start <= j <= n,
            k <= idx,
            split_on(s.take(j as int), ',').len() == k + 1,
            split_on(s.take(j as int), ',')[k as int] == s.subrange(start as int, j as int),
        decreases n - j,
    {
        let c = chars[j];
        proof {
            let t1 = s.take(j + 1);
            assert(t1.drop_last() =~= s.take(j as int));
            assert(t1.last() == c);
        }
        if c == ',' {
            if k == idx {
                proof {
                    lemma_split_prefix(s, ',', j + 1);
                }
                return line.substring_char(start, j);
            }
            k = k + 1;
            start = j + 1;
            assert(s.subrange(start as int, j + 1) =~= Seq::<char>::empty());
        } else {
            assert(s.subrange(start as int, j + 1) =~= s.subrange(start as int, j as int).push(c));
        }
        j = j + 1;
    }
    assert(s.take(n as int) =~= s);
    line.substring_char(start, n)
}

/// Whether the line has a comma-separated field at position `idx` (it has more
/// than `idx` fields).
pub fn has_field(line: &str, idx: usize) -> (r: bool)
    ensures
        r == (idx < split_on(line@, ',').len()),
{
    let chars = chars_of(line);
    let n = chars.len();
    let ghost s = line@;
    let mut k: usize = 0;
    let mut j: usize = 0;
    assert(s.take(0) =~= Seq::<char>::empty());
    while j < n
        invariant
            n == chars@.len(),
            chars@ == s,
            0 <= j <= n,
            k <= j,
            split_on(s.take(j as int), ',').len() == k + 1,
        decreases n - j,
    {
        proof {
            let t1 = s.take(j + 1);
            assert(t1.drop_last() =~= s.take(j as int));
            assert(t1.last() == chars@[j as int]);
        }
        if chars[j] == ',' {
            k = k + 1;
        }
        j = j + 1;
    }
    assert(s.take(n as int) =~= s);
    idx <= k
}

/// The lines of `text`, as std's `str::lines` yields them.
pub fn lines(text: &str) -> (r: Vec<String>)
    ensures
        r@.map_values(|l: String| l@) == lines_of(text@),
{
    let chars = chars_of(text);
    let n = chars.len();
    let ghost s = text@;
    let mut out: Vec<String> = Vec::new();
    let mut cur: Vec<char> = Vec::new();
    let mut j: usize = 0;
    assert(s.take(0) =~= Seq::<char>::empty());
    while j < n
        invariant
            n == chars@.len(),
            chars@ == s,
            0 <= j <= n,
            out@.map_values(|l: String| l@) == split_on(s.take(j as int), '\n').drop_last().map_values(
                |p: Seq<char>| strip_cr(p),
            ),
            cur@ == split_on(s.take(j as int), '\n').last(),
        decreases n - j,
    {
        let c = chars[j];
        let ghost before = split_on(s.take(j as int), '\n');
        proof {
            lemma_split_nonempty(s.take(j as int), '\n');
            let t1 = s.take(j + 1);
            assert(t1.drop_last() =~= s.take(j as int));
            assert(t1.last() == c);
        }
        if c == '\n' {
            let len = cur.len();
            let line = if len > 0 && cur[len - 1] == '\r' {
                string_of(&cur, 0, len - 1)
            } else {
                string_of(&cur, 0, len)
            };
            proof {
                assert(cur@.subrange(0, len as int) =~= cur@);
                if len > 0 {
                    assert(cur@.subrange(0, len - 1) =~= cur@.drop_last());
                }
                assert(line@ == strip_cr(before.last()));
            }
            let ghost old_out = out@;
            out.push(line);
            cur = Vec::new();
            proof {
                let after = split_on(s.take(j + 1), '\n');
                assert(after == before.push(Seq::<char>::empty()));
                assert(after.drop_last() =~= before);
                assert(before =~= before.drop_last().push(before.last()));
                assert(out@ =~= old_out.push(line));
                assert(out@.map_values(|l: String| l@) =~= old_out.map_values(|l: String| l@).push(
                    line@,
                ));
                assert(after.drop_last().map_values(|p: Seq<char>| strip_cr(p)) =~= before.drop_last().map_values(
                    |p: Seq<char>| strip_cr(p),
                ).push(strip_cr(before.last())));
                assert(cur@ =~= after.last());
            }
        } else {
            cur.push(c);
            proof {
                let after = split_on(s.take(j + 1), '\n');
                assert(after == before.update(before.len() - 1, before.last().push(c)));
                assert(after.drop_last() =~= before.drop_last());
            }
        }
        j = j + 1;
    }
    assert(s.take(n as int) =~= s);
    proof {
        lemma_split_nonempty(s, '\n');
    }
    if cur.len() > 0 {
        let len = cur.len();
        let last = string_of(&cur, 0, len);
        assert(cur@.subrange(0, len as int) =~= cur@);
        let ghost old_out = out@;
        out.push(last);
        assert(out@.map_values(|l: String| l@) =~= old_out.map_values(|l: String| l@).push(last@));
    }
    out
}

/// Whether `needle` occurs in `hay`.
pub fn contains_text(hay: &str, needle: &str) -> (r: bool)
    ensures
        r == has_substring(hay@, needle@),
{
    let h = chars_of(hay);
    let nd = chars_of(needle);
    let hn = h.len();
    let m = nd.len();
    if m > hn {
        return false;
    }
    let mut i: usize = 0;
    while i <= hn - m
        invariant
            h@ == hay@,
            nd@ == needle@,
            hn == h@.len(),
            m == nd@.len(),
            m <= hn,
            forall|p: int| 0 <= p < i ==> #[trigger] hay@.subrange(p, p + m) != needle@,
        decreases hn - m + 1 - i,
    {
        let mut k: usize = 0;
        let mut same = true;
        while k < m
            invariant
                h@ == hay@,
                nd@ == needle@,
                hn == h@.len(),
                m == nd@.len(),
                i + m <= hn,
                k <= m,
                same == (forall|q: int| 0 <= q < k ==> h@[i + q] == nd@[q]),
            decreases m - k,
        {
            if h[i + k] != nd[k] {
                same = false;
            }
            k = k + 1;
        }
        if same {
            assert(hay@.subrange(i as int, i + m) =~= needle@);
            return true;
        }
        assert(hay@.subrange(i as int, i + m) != needle@) by {
            let q = choose|q: int| 0 <= q < m && h@[i + q] != nd@[q];
            assert(hay@.subrange(i as int, i + m)[q] != needle@[q]);
        }
        i = i + 1;
    }
    assert forall|p: int| 0 <= p && p + needle@.len() <= hay@.len() implies #[trigger] hay@.subrange(
        p,
        p + needle@.len(),
    ) != needle@ by {
        assert(p < i);
    }
    false
}

/// The lines joined by single `\n` characters.
pub fn join_with_newlines(ls: &Vec<String>) -> (r: String)
    ensures
        r@ == join_lines(ls@.map_values(|l: String| l@)),
{
    let ghost v = ls@.map_values(|l: String| l@);
    let mut r = String::new();
    let mut i: usize = 0;
    while i < ls.len()
        invariant
            0 <= i <= ls.len(),
            v == ls@.map_values(|l: String| l@),
            r@ == join_lines(v.take(i as int)),
        decreases ls.len() - i,
    {
        proof {
            assert(v.take(i + 1).drop_last() =~= v.take(i as int));
        }
        if i > 0 {
            push_char(&mut r, '\n');
        }
        r.append(ls[i].as_str());
        proof {
            if i == 0 {
                assert(v.take(1).len() == 1);
            }
            assert(v.take(i + 1).last() == ls@[i as int]@);
        }
        i = i + 1;
    }
    assert(v.take(ls.len() as int) =~= v);
    r
}

/// What std's `str::parse::<u16>` gives: `None` where it returns an error.
pub fn parse_u16(text: &str) -> (r: Option<u16>)
    ensures
        r == spec_parse_u16(text@),
{
    let cs = chars_of(text);
    let n = cs.len();
    let start: usize = if n > 0 && cs[0] == '+' {
        1
    } else {
        0
    };
    let ghost s = text@;
    let ghost digits = if s.len() > 0 && s[0] == '+' {
        s.drop_first()
    } else {
        s
    };
    assert(digits =~= s.subrange(start as int, n as int));
    if start == n {
        return None;
    }
    let mut value: u32 = 0;
    let mut i: usize = start;
    assert(digits.take(0) =~= Seq::<char>::empty());
    while i < n
        invariant
            cs@ == s,
            s == text@,
            n == s.len(),
            start <= i <= n,
            digits =~= s.subrange(start as int, n as int),
            digits == (if s.len() > 0 && s[0] == '+' {
                s.drop_first()
            } else {
                s
            }),
            value <= 65535,
            forall|q: int| start <= q < i ==> is_digit(#[trigger] s[q]),
            value == digits_value(digits.take(i - start)),
        decreases n - i,
    {
        let c = cs[i];
        if !('0' <= c && c <= '9') {
            assert(!is_digit(digits[i - start]));
            return None;
        }
        let d = (c as u32) - ('0' as u32);
        proof {
            assert(digits.take(i - start + 1).drop_last() =~= digits.take(i - start));
            assert(digits.take(i - start + 1).last() == c);
        }
        let next = value * 10 + d;
        if next > 65535 {
            proof {
                assert(all_digits(digits) ==> digits_value(digits) > 65535) by {
                    if all_digits(digits) {
                        lemma_digits_value_grows(digits, i - start + 1);
                    }
                }
            }
            return None;
        }
        value = next;
        i = i + 1;
    }
    assert(digits.take(n - start) =~= digits);
    assert(all_digits(digits)) by {
        assert forall|q: int| 0 <= q < digits.len() implies is_digit(#[trigger] digits[q]) by {
            assert(digits[q] == s[q + start]);
        }
    }
    Some(value as u16)
}

} // verus!
