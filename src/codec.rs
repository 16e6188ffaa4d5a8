//! Characters, decimal numbers and the line format of the backing file.
use vstd::prelude::*;

use crate::note::{notes_view, Note};

verus! {

broadcast use vstd::string::group_string_axioms;

/// Relies on `String::push`: appends one character at the end.
pub assume_specification[ String::push ](s: &mut String, ch: char)
    ensures
        final(s)@ == old(s)@.push(ch),
;

/// The pieces of `s` between occurrences of `sep`, as `str::split` with a
/// character pattern gives them: always at least one piece, possibly empty.
pub open spec fn split_on(s: Seq<char>, sep: char) -> Seq<Seq<char>>
    decreases s.len(),
{
    if s.len() == 0 {
        seq![Seq::<char>::empty()]
    } else {
        let prev = split_on(s.drop_last(), sep);
        if s.last() == sep {
            prev.push(Seq::<char>::empty())
        } else {
            prev.update(prev.len() - 1, prev.last().push(s.last()))
        }
    }
}

/// Splitting always gives at least one piece.
pub proof fn lemma_split_on_nonempty(s: Seq<char>, sep: char)
    ensures
        split_on(s, sep).len() >= 1,
    decreases s.len(),
{
    if s.len() > 0 {
        lemma_split_on_nonempty(s.drop_last(), sep);
    }
}

/// Whether `c` is an ASCII decimal digit.
pub open spec fn is_digit(c: char) -> bool {
    '0' <= c && c <= '9'
}

/// The value of the ASCII digit `c`.
pub open spec fn digit_value(c: char) -> nat {
    (c as int - '0' as int) as nat
}

/// The ASCII digit for `d`, for `d < 10`.
pub open spec fn digit_char(d: nat) -> char {
    if d == 0 {
        '0'
    } else if d == 1 {
        '1'
    } else if d == 2 {
        '2'
    } else if d == 3 {
        '3'
    } else if d == 4 {
        '4'
    } else if d == 5 {
        '5'
    } else if d == 6 {
        '6'
    } else if d == 7 {
        '7'
    } else if d == 8 {
        '8'
    } else {
        '9'
    }
}

/// Whether every character of `s` is an ASCII digit.
pub open spec fn all_digits(s: Seq<char>) -> bool {
    forall|i: int| 0 <= i < s.len() ==> is_digit(#[trigger] s[i])
}

/// The number that the decimal digits `s` spell, most significant first.
pub open spec fn digits_value(s: Seq<char>) -> nat
    decreases s.len(),
{
    if s.len() == 0 {
        0
    } else {
        digits_value(s.drop_last()) * 10 + digit_value(s.last())
    }
}

/// The shortest decimal representation of `n`.
pub open spec fn decimal(n: nat) -> Seq<char>
    decreases n,
{
    if n < 10 {
        seq![digit_char(n)]
    } else {
        decimal(n / 10).push(digit_char(n % 10))
    }
}

/// What `str::parse::<usize>` accepts: an optional `+`, then one or more ASCII
/// digits whose value fits in a `usize`.
pub open spec fn parse_usize(s: Seq<char>) -> Option<usize> {
    let body = if s.len() > 0 && s[0] == '+' {
        s.drop_first()
    } else {
        s
    };
    if body.len() > 0 && all_digits(body) && digits_value(body) <= usize::MAX {
        Some(digits_value(body) as usize)
    } else {
        None
    }
}

/// Whether `c` has the Unicode `White_Space` property, as `char::is_whitespace` tests.
pub open spec fn is_ws(c: char) -> bool {
    ||| c == ' '
    ||| ('\t' <= c && c <= '\r')
    ||| c == '\u{85}'
    ||| c == '\u{a0}'
    ||| c == '\u{1680}'
    ||| ('\u{2000}' <= c && c <= '\u{200a}')
    ||| c == '\u{2028}'
    ||| c == '\u{2029}'
    ||| c == '\u{202f}'
    ||| c == '\u{205f}'
    ||| c == '\u{3000}'
}

/// `s` without leading white space.
pub open spec fn trim_start(s: Seq<char>) -> Seq<char>
    decreases s.len(),
{
    if s.len() > 0 && is_ws(s[0]) {
        trim_start(s.drop_first())
    } else {
        s
    }
}

/// `s` without trailing white space.
pub open spec fn trim_end(s: Seq<char>) -> Seq<char>
    decreases s.len(),
{
    if s.len() > 0 && is_ws(s.last()) {
        trim_end(s.drop_last())
    } else {
        s
    }
}

/// `s` without leading and trailing white space, as `str::trim` gives it.
pub open spec fn trim(s: Seq<char>) -> Seq<char> {
    trim_end(trim_start(s))
}

/// `s` without one trailing carriage return.
pub open spec fn strip_cr(s: Seq<char>) -> Seq<char> {
    if s.len() > 0 && s.last() == '\r' {
        s.drop_last()
    } else {
        s
    }
}

/// The lines of `s` as `str::lines` gives them: split at each line feed, with a
/// carriage return before the line feed removed and no empty line after a
/// final line feed.
pub open spec fn lines(s: Seq<char>) -> Seq<Seq<char>> {
    let p = split_on(s, '\n');
    let ended = p.drop_last().map_values(|l: Seq<char>| strip_cr(l));
    if p.last().len() == 0 {
        ended
    } else {
        ended.push(p.last())
    }
}

/// The record that one line holds: the line has exactly one `|`, and before it
/// stands a decimal id, white space around it allowed; the text is everything
/// after the `|`. Empty lines and all other lines hold none.
pub open spec fn parse_line(line: Seq<char>) -> Option<(usize, Seq<char>)> {
    let parts = split_on(line, '|');
    if parts.len() == 2 {
        match parse_usize(trim(parts[0])) {
            Some(id) => Some((id, parts[1])),
            None => None,
        }
    } else {
        None
    }
}

/// The records of `ls`, in order, skipping every line that holds none.
pub open spec fn records_of(ls: Seq<Seq<char>>) -> Seq<(usize, Seq<char>)>
    decreases ls.len(),
{
    if ls.len() == 0 {
        Seq::empty()
    } else {
        let prev = records_of(ls.drop_last());
        match parse_line(ls.last()) {
            Some(r) => prev.push(r),
            None => prev,
        }
    }
}

/// The notes that the file contents `s` hold.
pub open spec fn parse_file(s: Seq<char>) -> Seq<(usize, Seq<char>)> {
    records_of(lines(s))
}

/// The line that stores a note, without its line feed.
pub open spec fn record_line(n: (usize, Seq<char>)) -> Seq<char> {
    decimal(n.0 as nat) + seq!['|'] + n.1
}

/// The file contents that store `ns`, one line each, in order.
pub open spec fn serialize(ns: Seq<(usize, Seq<char>)>) -> Seq<char>
    decreases ns.len(),
{
    if ns.len() == 0 {
        Seq::empty()
    } else {
        serialize(ns.drop_last()) + record_line(ns.last()) + seq!['\n']
    }
}

/// A text that a record line keeps as it is: no line feed, no `|`, and no
/// carriage return at its end.
pub open spec fn storable_text(t: Seq<char>) -> bool {
    &&& forall|i: int| 0 <= i < t.len() ==> #[trigger] t[i] != '\n' && t[i] != '|'
    &&& (t.len() > 0 ==> t.last() != '\r')
}

/// Whether `c` is white space, as `char::is_whitespace` tells.
pub fn is_whitespace(c: char) -> (r: bool)
    ensures
        r == is_ws(c),
{
    c == ' ' || ('\t' <= c && c <= '\r') || c == '\u{85}' || c == '\u{a0}' || c == '\u{1680}'
        || ('\u{2000}' <= c && c <= '\u{200a}') || c == '\u{2028}' || c == '\u{2029}' || c
        == '\u{202f}' || c == '\u{205f}' || c == '\u{3000}'
}

/// The range of `v[lo..hi]` that remains once white space is trimmed from both ends.
pub fn trim_range(v: &Vec<char>, lo: usize, hi: usize) -> (r: (usize, usize))
    requires
        lo <= hi <= v@.len(),
    ensures
        lo <= r.0 <= r.1 <= hi,
        v@.subrange(r.0 as int, r.1 as int) == trim(v@.subrange(lo as int, hi as int)),
{
    let mut a: usize = lo;
    while a < hi && is_whitespace(v[a])
        invariant
            lo <= a <= hi <= v@.len(),
            trim_start(v@.subrange(lo as int, hi as int)) == trim_start(
                v@.subrange(a as int, hi as int),
            ),
        decreases hi - a,
    {
        assert(v@.subrange(a as int, hi as int).drop_first() =~= v@.subrange(a + 1, hi as int));
        a = a + 1;
    }
    let mut b: usize = hi;
    while b > a && is_whitespace(v[b - 1])
        invariant
            lo <= a <= b <= hi <= v@.len(),
            trim_end(v@.subrange(a as int, hi as int)) == trim_end(v@.subrange(a as int, b as int)),
        decreases b - a,
    {
        assert(v@.subrange(a as int, b as int).drop_last() =~= v@.subrange(a as int, b - 1));
        b = b - 1;
    }
    (a, b)
}

/// The value of the ASCII digit `c`.
pub fn digit_of(c: char) -> (d: usize)
    requires
        is_digit(c),
    ensures
        d == digit_value(c),
{
    (c as u32 - '0' as u32) as usize
}

/// A prefix of a digit sequence spells no larger number than the whole.
pub proof fn lemma_digits_value_prefix(s: Seq<char>, k: int)
    requires
        0 <= k <= s.len(),
    ensures
        digits_value(s.take(k)) <= digits_value(s),
    decreases s.len(),
{
    if k < s.len() {
        assert(s.drop_last().take(k) =~= s.take(k));
        lemma_digits_value_prefix(s.drop_last(), k);
    } else {
        assert(s.take(k) =~= s);
    }
}

/// The number that `v[lo..hi]` spells, as `str::parse::<usize>` reads it.
pub fn parse_usize_range(v: &Vec<char>, lo: usize, hi: usize) -> (r: Option<usize>)
    requires
        lo <= hi <= v@.len(),
    ensures
        r == parse_usize(v@.subrange(lo as int, hi as int)),
{
    let ghost s = v@.subrange(lo as int, hi as int);
    let start: usize = if lo < hi && v[lo] == '+' {
        lo + 1
    } else {
        lo
    };
    let ghost body = v@.subrange(start as int, hi as int);
    assert(body == (if s.len() > 0 && s[0] == '+' {
        s.drop_first()
    } else {
        s
    })) by {
        if s.len() > 0 && s[0] == '+' {
            assert(s.drop_first() =~= body);
        } else {
            assert(s =~= body);
        }
    }
    if start == hi {
        return None;
    }
    let mut val: usize = 0;
    let mut i: usize = start;
    assert(v@.subrange(start as int, start as int) =~= Seq::<char>::empty());
    while i < hi
        invariant
            start <= i <= hi <= v@.len(),
            body == v@.subrange(start as int, hi as int),
            s == v@.subrange(lo as int, hi as int),
            body == (if s.len() > 0 && s[0] == '+' {
                s.drop_first()
            } else {
                s
            }),
            all_digits(v@.subrange(start as int, i as int)),
            val == digits_value(v@.subrange(start as int, i as int)),
        decreases hi - i,
    {
        let c = v[i];
        let ghost pre = v@.subrange(start as int, i as int);
        let ghost next = v@.subrange(start as int, i + 1);
        assert(next.drop_last() =~= pre);
        assert(body.take(i + 1 - start) =~= next);
        if !('0' <= c && c <= '9') {
            assert(body[i - start] == c);
            assert(!is_digit(body[i - start]));
            return None;
        }
        let d = digit_of(c);
        assert(next.last() == c);
        assert(digits_value(next) == digits_value(pre) * 10 + digit_value(c));
        match val.checked_mul(10) {
            Some(m) => match m.checked_add(d) {
                Some(t) => {
                    val = t;
                },
                None => {
                    proof {
                        lemma_digits_value_prefix(body, i + 1 - start);
                    }
                    return None;
                },
            },
            None => {
                proof {
                    lemma_digits_value_prefix(body, i + 1 - start);
                }
                return None;
            },
        }
        i = i + 1;
    }
    Some(val)
}

/// The ASCII digit for `d`.
pub fn digit_to_char(d: usize) -> (c: char)
    requires
        d < 10,
    ensures
        c == digit_char(d as nat),
{
    if d == 0 {
        '0'
    } else if d == 1 {
        '1'
    } else if d == 2 {
        '2'
    } else if d == 3 {
        '3'
    } else if d == 4 {
        '4'
    } else if d == 5 {
        '5'
    } else if d == 6 {
        '6'
    } else if d == 7 {
        '7'
    } else if d == 8 {
        '8'
    } else {
        '9'
    }
}

/// Appends the decimal representation of `n` to `s`.
pub fn push_decimal(s: &mut String, n: usize)
    ensures
        final(s)@ == old(s)@ + decimal(n as nat),
    decreases n,
{
    if n >= 10 {
        push_decimal(s, n / 10);
    }
    s.push(digit_to_char(n % 10));
    proof {
        if n < 10 {
            assert(n % 10 == n);
        }
        assert(final(s)@ =~= old(s)@ + decimal(n as nat));
    }
}

/// `r` lists, as index ranges into `v`, exactly the pieces `p`.
pub open spec fn ranges_are(v: Seq<char>, r: Seq<(usize, usize)>, p: Seq<Seq<char>>) -> bool {
    &&& r.len() == p.len()
    &&& forall|k: int|
        #![trigger r[k]]
        0 <= k < r.len() ==> r[k].0 <= r[k].1 <= v.len() && v.subrange(r[k].0 as int, r[k].1 as int)
            == p[k]
}

/// The pieces of `v[lo..hi]` between occurrences of `sep`, as index ranges into `v`.
pub fn split_ranges(v: &Vec<char>, lo: usize, hi: usize, sep: char) -> (r: Vec<(usize, usize)>)
    requires
        lo <= hi <= v@.len(),
    ensures
        ranges_are(v@, r@, split_on(v@.subrange(lo as int, hi as int), sep)),
{
    let mut done: Vec<(usize, usize)> = Vec::new();
    let mut cur: usize = lo;
    let mut i: usize = lo;
    assert(v@.subrange(lo as int, lo as int) =~= Seq::<char>::empty());
    while i < hi
        invariant
            lo <= cur <= i <= hi <= v@.len(),
            ({
                let p = split_on(v@.subrange(lo as int, i as int), sep);
                &&& p.len() == done@.len() + 1
                &&& ranges_are(v@, done@, p.take(done@.len() as int))
                &&& p.last() == v@.subrange(cur as int, i as int)
            }),
        decreases hi - i,
    {
        let ghost before = split_on(v@.subrange(lo as int, i as int), sep);
        let ghost done0 = done@;
        let ghost cur0 = cur;
        let ghost i0 = i;
        assert(before.last() == v@.subrange(cur0 as int, i0 as int));
        assert(v@.subrange(lo as int, i + 1).drop_last() =~= v@.subrange(lo as int, i as int));
        if v[i] == sep {
            done.push((cur, i));
            cur = i + 1;
            i = i + 1;
            assert(v@.subrange(cur as int, i as int) =~= Seq::<char>::empty());
            let ghost p = split_on(v@.subrange(lo as int, i as int), sep);
            assert(p.take(done@.len() as int) =~= before);
            assert forall|k: int| #![trigger done@[k]] 0 <= k < done@.len() implies done@[k].0 <= done@[k].1 <= v@.len()
                && v@.subrange(done@[k].0 as int, done@[k].1 as int) == before[k] by {
                if k < done@.len() - 1 {
                    assert(done@[k] == done0[k]);
                    assert(before.take(done0.len() as int)[k] == before[k]);
                    assert(v@.subrange(done0[k].0 as int, done0[k].1 as int) == before.take(
                        done0.len() as int,
                    )[k]);
                } else {
                    assert(done@[k] == (cur0, i0));
                }
            }
        } else {
            i = i + 1;
            let ghost p = split_on(v@.subrange(lo as int, i as int), sep);
            assert(v@.subrange(cur as int, i as int) =~= v@.subrange(cur as int, i - 1).push(v@[i - 1]));
            assert(p.take(done@.len() as int) =~= before.take(done@.len() as int));
            assert(p.last() == before.last().push(v@[i - 1]));
        }
    }
    let ghost done0 = done@;
    done.push((cur, hi));
    let ghost p = split_on(v@.subrange(lo as int, hi as int), sep);
    assert(p =~= p.take(done@.len() - 1).push(p.last()));
    assert forall|k: int| #![trigger done@[k]] 0 <= k < done@.len() implies done@[k].0 <= done@[k].1 <= v@.len()
        && v@.subrange(done@[k].0 as int, done@[k].1 as int) == p[k] by {
        if k < done@.len() - 1 {
            assert(p.take(done@.len() - 1)[k] == p[k]);
            assert(v@.subrange(done@[k].0 as int, done@[k].1 as int) == p.take(
                done@.len() - 1,
            )[k]);
        }
    }
    done
}

/// The note that the line `v[lo..hi]` holds, if any.
pub fn parse_record(v: &Vec<char>, lo: usize, hi: usize) -> (r: Option<Note>)
    requires
        lo <= hi <= v@.len(),
    ensures
        parse_line(v@.subrange(lo as int, hi as int)) == (match r {
            Some(n) => Some(n@),
            None => None,
        }),
{
    let parts = split_ranges(v, lo, hi, '|');
    if parts.len() != 2 {
        return None;
    }
    let (a, b) = trim_range(v, parts[0].0, parts[0].1);
    match parse_usize_range(v, a, b) {
        Some(id) => {
            let text = string_of(v, parts[1].0, parts[1].1);
            Some(Note { id, text })
        },
        None => None,
    }
}

/// An empty line holds no record.
pub proof fn lemma_empty_line_has_no_record()
    ensures
        parse_line(Seq::<char>::empty()) is None,
{
    assert(split_on(Seq::<char>::empty(), '|').len() == 1);
}

/// The notes that the file contents `s` hold, in file order.
pub fn parse_contents(s: &str) -> (r: Vec<Note>)
    ensures
        notes_view(r@) == parse_file(s@),
{
    let v = chars_of(s);
    let n = v.len();
    let p = split_ranges(&v, 0, n, '\n');
    let ghost pieces = split_on(v@.subrange(0, n as int), '\n');
    assert(v@.subrange(0, n as int) =~= s@);
    proof {
        lemma_split_on_nonempty(s@, '\n');
    }
    let ghost all = pieces.drop_last().map_values(|l: Seq<char>| strip_cr(l)).push(pieces.last());
    let mut out: Vec<Note> = Vec::new();
    let mut k: usize = 0;
    assert(all.take(0) =~= Seq::<Seq<char>>::empty());
    assert(notes_view(out@) =~= Seq::<(usize, Seq<char>)>::empty());
    while k < p.len()
        invariant
            k <= p@.len() == pieces.len() == all.len(),
            ranges_are(v@, p@, pieces),
            all == pieces.drop_last().map_values(|l: Seq<char>| strip_cr(l)).push(pieces.last()),
            notes_view(out@) == records_of(all.take(k as int)),
        decreases p@.len() - k,
    {
        let (a, b0) = p[k];
        let b: usize = if k + 1 < p.len() && b0 > a && v[b0 - 1] == '\r' {
            b0 - 1
        } else {
            b0
        };
        assert(v@.subrange(a as int, b as int) == all[k as int]) by {
            assert(v@.subrange(a as int, b0 as int) == pieces[k as int]);
            if k + 1 < p.len() {
                assert(all[k as int] == strip_cr(pieces[k as int]));
                if b0 > a && v[b0 - 1] == '\r' {
                    assert(pieces[k as int].drop_last() =~= v@.subrange(a as int, b as int));
                }
            }
        }
        let ghost before = out@;
        assert(all.take(k + 1).drop_last() =~= all.take(k as int));
        match parse_record(&v, a, b) {
            Some(note) => {
                out.push(note);
                assert(notes_view(out@) =~= notes_view(before).push(note@));
            },
            None => {},
        }
        k = k + 1;
    }
    assert(all.take(k as int) =~= all);
    proof {
        if pieces.last().len() == 0 {
            lemma_empty_line_has_no_record();
            assert(all.drop_last() =~= lines(s@));
        } else {
            assert(all =~= lines(s@));
        }
    }
    out
}

/// The file contents that store `ns`: one `<id>|<text>` line each, in order.
pub fn serialize_notes(ns: &Vec<Note>) -> (r: String)
    ensures
        r@ == serialize(notes_view(ns@)),
{
    let mut r = String::new();
    let mut k: usize = 0;
    assert(notes_view(ns@).take(0) =~= Seq::<(usize, Seq<char>)>::empty());
    while k < ns.len()
        invariant
            k <= ns@.len(),
            r@ == serialize(notes_view(ns@).take(k as int)),
        decreases ns@.len() - k,
    {
        let ghost before = r@;
        let note = &ns[k];
        push_decimal(&mut r, note.id);
        r.push('|');
        r.append(note.text.as_str());
        r.push('\n');
        let ghost m = notes_view(ns@).take(k + 1);
        assert(m.drop_last() =~= notes_view(ns@).take(k as int));
        assert(m.last() == note@);
        assert(r@ =~= before + record_line(note@) + seq!['\n']);
        k = k + 1;
    }
    assert(notes_view(ns@).take(k as int) =~= notes_view(ns@));
    r
}

/// Appending characters without `sep` extends the last piece.
pub proof fn lemma_split_append_plain(a: Seq<char>, c: Seq<char>, sep: char)
    requires
        forall|i: int| 0 <= i < c.len() ==> #[trigger] c[i] != sep,
    ensures
        split_on(a + c, sep) == split_on(a, sep).update(
            split_on(a, sep).len() - 1,
            split_on(a, sep).last() + c,
        ),
    decreases c.len(),
{
    lemma_split_on_nonempty(a, sep);
    if c.len() == 0 {
        assert(a + c =~= a);
        assert(split_on(a, sep).last() + c =~= split_on(a, sep).last());
        assert(split_on(a, sep).update(split_on(a, sep).len() - 1, split_on(a, sep).last())
            =~= split_on(a, sep));
    } else {
        let c0 = c.drop_last();
        lemma_split_append_plain(a, c0, sep);
        assert((a + c).drop_last() =~= a + c0);
        assert((a + c).last() == c.last());
        assert(c[c.len() - 1] != sep);
        let p = split_on(a, sep);
        let p0 = split_on(a + c0, sep);
        assert(p0.len() == p.len() && p0.last() == p.last() + c0);
        assert(split_on(a + c, sep) == p0.update(p0.len() - 1, p0.last().push(c.last())));
        assert((p.last() + c0).push(c.last()) =~= p.last() + c);
        assert(split_on(a + c, sep) =~= p.update(p.len() - 1, p.last() + c));
    }
}

/// Appending `sep` starts a new, empty piece.
pub proof fn lemma_split_append_sep(a: Seq<char>, sep: char)
    ensures
        split_on(a.push(sep), sep) == split_on(a, sep).push(Seq::<char>::empty()),
{
    assert(a.push(sep).drop_last() =~= a);
}

/// Facts on the decimal representation of `n`.
pub proof fn lemma_decimal(n: nat)
    ensures
        decimal(n).len() >= 1,
        all_digits(decimal(n)),
        digits_value(decimal(n)) == n,
    decreases n,
{
    if n >= 10 {
        lemma_decimal(n / 10);
        let d = decimal(n);
        assert(d.drop_last() =~= decimal(n / 10));
        assert(all_digits(d)) by {
            assert forall|i: int| 0 <= i < d.len() implies is_digit(#[trigger] d[i]) by {
                if i < d.len() - 1 {
                    assert(d[i] == decimal(n / 10)[i]);
                }
            }
        }
    } else {
        assert(digits_value(decimal(n).drop_last()) == 0);
    }
}

/// Each line of a file gives exactly the record it holds, or nothing, after
/// the records of the lines before it.
pub proof fn lemma_line_contribution(a: Seq<char>, l: Seq<char>)
    requires
        a.len() == 0 || a.last() == '\n',
        forall|i: int| 0 <= i < l.len() ==> #[trigger] l[i] != '\n',
    ensures
        parse_file(a + l + seq!['\n']) == (match parse_line(strip_cr(l)) {
            Some(r) => parse_file(a).push(r),
            None => parse_file(a),
        }),
{
    let p = split_on(a, '\n');
    lemma_split_on_nonempty(a, '\n');
    if a.len() > 0 {
        lemma_split_append_sep(a.drop_last(), '\n');
        assert(a.drop_last().push('\n') =~= a);
    }
    assert(p.last() == Seq::<char>::empty());
    lemma_split_append_plain(a, l, '\n');
    lemma_split_append_sep(a + l, '\n');
    assert((a + l).push('\n') =~= a + l + seq!['\n']);
    let q = split_on(a + l + seq!['\n'], '\n');
    assert(p.last() + l =~= l);
    assert(q == p.update(p.len() - 1, l).push(Seq::<char>::empty()));
    assert(q.drop_last() =~= p.drop_last().push(l));
    let strip = |x: Seq<char>| strip_cr(x);
    assert(lines(a + l + seq!['\n']) =~= lines(a).push(strip_cr(l))) by {
        assert(lines(a) =~= p.drop_last().map_values(strip));
        assert(p.drop_last().push(l).map_values(strip) =~= p.drop_last().map_values(strip).push(
            strip_cr(l),
        ));
    }
    assert(lines(a).push(strip_cr(l)).drop_last() =~= lines(a));
}

/// A record line reads back as the note it stores.
pub proof fn lemma_record_line(n: (usize, Seq<char>))
    requires
        storable_text(n.1),
    ensures
        parse_line(record_line(n)) == Some(n),
        forall|i: int| 0 <= i < record_line(n).len() ==> #[trigger] record_line(n)[i] != '\n',
        strip_cr(record_line(n)) == record_line(n),
{
    let d = decimal(n.0 as nat);
    lemma_decimal(n.0 as nat);
    assert forall|i: int| 0 <= i < d.len() implies #[trigger] d[i] != '|' && d[i] != '\n' by {
        assert(is_digit(d[i]));
    }
    lemma_split_append_plain(Seq::<char>::empty(), d, '|');
    assert(Seq::<char>::empty() + d =~= d);
    assert(split_on(d, '|') =~= seq![d]);
    lemma_split_append_sep(d, '|');
    lemma_split_append_plain(d.push('|'), n.1, '|');
    assert(d.push('|') =~= d + seq!['|']);
    let parts = split_on(record_line(n), '|');
    assert(parts =~= seq![d, n.1]);
    assert(is_digit(d[0]) && is_digit(d.last()));
    assert(trim_start(d) == d);
    assert(trim(d) == d);
    assert(parse_usize(d) == Some(n.0));
    let rl = record_line(n);
    assert forall|i: int| 0 <= i < rl.len() implies #[trigger] rl[i] != '\n' by {
        if i < d.len() {
            assert(rl[i] == d[i]);
        } else if i > d.len() {
            assert(rl[i] == n.1[i - d.len() - 1]);
        }
    }
    if n.1.len() > 0 {
        assert(rl.last() == n.1.last());
    } else {
        assert(rl.last() == '|');
    }
}

/// Reading back what `serialize` writes gives the same notes, in the same order,
/// when no text holds a line feed or a `|`, or ends in a carriage return.
pub proof fn lemma_round_trip(ns: Seq<(usize, Seq<char>)>)
    requires
        forall|i: int| 0 <= i < ns.len() ==> storable_text(#[trigger] ns[i].1),
    ensures
        parse_file(serialize(ns)) == ns,
    decreases ns.len(),
{
    if ns.len() == 0 {
        assert(split_on(Seq::<char>::empty(), '\n') =~= seq![Seq::<char>::empty()]);
        assert(lines(Seq::<char>::empty()) =~= Seq::<Seq<char>>::empty());
    } else {
        let prev = ns.drop_last();
        lemma_round_trip(prev);
        lemma_record_line(ns.last());
        let a = serialize(prev);
        if prev.len() > 0 {
            assert(a.last() == '\n');
        }
        lemma_line_contribution(a, record_line(ns.last()));
        assert(prev.push(ns.last()) =~= ns);
    }
}

/// The characters of `s`, in order.
pub fn chars_of(s: &str) -> (r: Vec<char>)
    ensures
        r@ == s@,
{
    let n = s.unicode_len();
    let mut r: Vec<char> = Vec::new();
    let mut i: usize = 0;
    while i < n
        invariant
            i <= n == s@.len(),
            r@ == s@.subrange(0, i as int),
        decreases n - i,
    {
        r.push(s.get_char(i));
        i = i + 1;
        assert(r@ =~= s@.subrange(0, i as int));
    }
    assert(r@ =~= s@);
    r
}

/// The string made of the characters `v[lo..hi]`.
pub fn string_of(v: &Vec<char>, lo: usize, hi: usize) -> (r: String)
    requires
        lo <= hi <= v@.len(),
    ensures
        r@ == v@.subrange(lo as int, hi as int),
{
    let mut r = String::new();
    let mut i: usize = lo;
    while i < hi
        invariant
            lo <= i <= hi <= v@.len(),
            r@ == v@.subrange(lo as int, i as int),
        decreases hi - i,
    {
        r.push(v[i]);
        i = i + 1;
        assert(r@ =~= v@.subrange(lo as int, i as int));
    }
    r
}

} // verus!
