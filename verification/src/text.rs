//! Character-level text utilities: finding and splitting on a delimiter,
//! splitting a statement into lines, removing a noise character, and
//! undoing HTML ampersand escaping.

use vstd::prelude::*;
use vstd::string::StrSliceExecFns;
use vstd::string::StringExecFns;

verus! {

/// Whether `c` is a decimal digit.
pub open spec fn is_digit(c: char) -> bool {
    48 <= c as u32 <= 57
}

/// The value of the decimal digit `c`.
pub open spec fn digit_val(c: char) -> int {
    c as u32 - 48
}

/// Index of the first occurrence of `c` in `s`, or `s.len()` when `c` does
/// not occur.
pub open spec fn spec_find(s: Seq<char>, c: char) -> int
    decreases s.len(),
{
    if s.len() == 0 {
        0
    } else if s[0] == c {
        0
    } else {
        1 + spec_find(s.skip(1), c)
    }
}

/// `spec_find` is pinned down by pointwise facts: if `c` occurs nowhere
/// before `j`, and at `j` unless `j` is the length, then `spec_find` is `j`.
pub proof fn lemma_find_is(s: Seq<char>, c: char, j: int)
    requires
        0 <= j <= s.len(),
        forall|k: int| 0 <= k < j ==> s[k] != c,
        j < s.len() ==> s[j] == c,
    ensures
        spec_find(s, c) == j,
    decreases s.len(),
{
    if s.len() == 0 {
    } else if s[0] == c {
        assert(j == 0);
    } else {
        assert(j >= 1);
        assert forall|k: int| 0 <= k < j - 1 implies s.skip(1)[k] != c by {
            assert(s.skip(1)[k] == s[k + 1]);
        }
        if j - 1 < s.len() - 1 {
            assert(s.skip(1)[j - 1] == s[j]);
        }
        lemma_find_is(s.skip(1), c, j - 1);
    }
}

/// The fields of `s`, split on the delimiter `c`. Splitting the empty
/// sequence gives one empty field; every delimiter separates two fields.
pub open spec fn spec_split(s: Seq<char>, c: char) -> Seq<Seq<char>>
    decreases s.len(),
{
    let i = spec_find(s, c);
    if 0 <= i < s.len() {
        seq![s.take(i)] + spec_split(s.skip(i + 1), c)
    } else {
        seq![s]
    }
}

/// One splitting step: a delimiter at `i`, with none between `start` and
/// `i`, cuts off the field `s[start..i]`.
pub proof fn lemma_split_step(s: Seq<char>, c: char, start: int, i: int)
    requires
        0 <= start <= i < s.len(),
        s[i] == c,
        forall|k: int| start <= k < i ==> s[k] != c,
    ensures
        spec_split(s.skip(start), c) == seq![s.subrange(start, i)] + spec_split(
            s.skip(i + 1),
            c,
        ),
{
    let t = s.skip(start);
    assert forall|k: int| 0 <= k < i - start implies t[k] != c by {
        assert(t[k] == s[start + k]);
    }
    assert(t[i - start] == s[i]);
    lemma_find_is(t, c, i - start);
    assert(t.take(i - start) =~= s.subrange(start, i));
    assert(t.skip(i - start + 1) =~= s.skip(i + 1));
}

/// The final splitting step: no delimiter from `start` on, so the rest is
/// one single field.
pub proof fn lemma_split_end(s: Seq<char>, c: char, start: int)
    requires
        0 <= start <= s.len(),
        forall|k: int| start <= k < s.len() ==> s[k] != c,
    ensures
        spec_split(s.skip(start), c) == seq![s.skip(start)],
{
    let t = s.skip(start);
    assert forall|k: int| 0 <= k < t.len() implies t[k] != c by {
        assert(t[k] == s[start + k]);
    }
    lemma_find_is(t, c, t.len() as int);
}

/// Splits `s` into its `c`-delimited fields, in order.
pub fn split_char(s: &str, c: char) -> (fields: Vec<String>)
    ensures
        fields@.map_values(|f: String| f@) == spec_split(s@, c),
{
    let n = s.unicode_len();
    let mut fields: Vec<String> = Vec::new();
    let mut start: usize = 0;
    let mut i: usize = 0;
    proof {
        assert(s@.skip(0) =~= s@);
        assert(fields@.map_values(|f: String| f@) =~= Seq::<Seq<char>>::empty());
        assert(Seq::<Seq<char>>::empty() + spec_split(s@, c) =~= spec_split(s@, c));
    }
    while i < n
        invariant
            n == s@.len(),
            start <= i <= n,
            forall|k: int| start <= k < i ==> s@[k] != c,
            spec_split(s@, c) == fields@.map_values(|f: String| f@) + spec_split(
                s@.skip(start as int),
                c,
            ),
        decreases n - i,
    {
        if s.get_char(i) == c {
            let field = s.substring_char(start, i).to_owned();
            proof {
                lemma_split_step(s@, c, start as int, i as int);
                assert(fields@.push(field).map_values(|f: String| f@) =~= fields@.map_values(
                    |f: String| f@,
                ).push(field@));
                assert(fields@.map_values(|f: String| f@).push(field@) + spec_split(
                    s@.skip(i + 1),
                    c,
                ) =~= fields@.map_values(|f: String| f@) + (seq![s@.subrange(start as int, i as int)]
                    + spec_split(s@.skip(i + 1), c)));
            }
            fields.push(field);
            start = i + 1;
        }
        i += 1;
    }
    let last = s.substring_char(start, n).to_owned();
    proof {
        lemma_split_end(s@, c, start as int);
        assert(last@ == s@.skip(start as int));
        assert(fields@.push(last).map_values(|f: String| f@) =~= fields@.map_values(|f: String| f@)
            + seq![last@]);
    }
    fields.push(last);
    fields
}

/// Drops one carriage return at the end of a line, as the line splitter
/// does for lines that ended in a carriage return and a line feed.
pub open spec fn spec_strip_cr(t: Seq<char>) -> Seq<char> {
    if t.len() > 0 && t[t.len() - 1] == '\r' {
        t.drop_last()
    } else {
        t
    }
}

/// The lines of `s`: split on line feeds, one trailing carriage return
/// removed from each line so separated, and no final empty line when `s`
/// ends in a line feed or is empty.
pub open spec fn spec_lines(s: Seq<char>) -> Seq<Seq<char>>
    decreases s.len(),
{
    if s.len() == 0 {
        Seq::empty()
    } else {
        let i = spec_find(s, '\n');
        if 0 <= i < s.len() {
            seq![spec_strip_cr(s.take(i))] + spec_lines(s.skip(i + 1))
        } else {
            seq![s]
        }
    }
}

/// Splits `s` into its lines, as [`spec_lines`] describes.
pub fn lines_of(s: &str) -> (lines: Vec<String>)
    ensures
        lines@.map_values(|l: String| l@) == spec_lines(s@),
{
    let n = s.unicode_len();
    let mut lines: Vec<String> = Vec::new();
    let mut start: usize = 0;
    let mut i: usize = 0;
    proof {
        assert(s@.skip(0) =~= s@);
        assert(lines@.map_values(|l: String| l@) =~= Seq::<Seq<char>>::empty());
        assert(Seq::<Seq<char>>::empty() + spec_lines(s@) =~= spec_lines(s@));
    }
    while i < n
        invariant
            n == s@.len(),
            start <= i <= n,
            forall|k: int| start <= k < i ==> s@[k] != '\n',
            spec_lines(s@) == lines@.map_values(|l: String| l@) + spec_lines(
                s@.skip(start as int),
            ),
        decreases n - i,
    {
        if s.get_char(i) == '\n' {
            let stop = if i > start && s.get_char(i - 1) == '\r' {
                i - 1
            } else {
                i
            };
            let line = s.substring_char(start, stop).to_owned();
            proof {
                let t = s@.skip(start as int);
                assert forall|k: int| 0 <= k < i - start implies t[k] != '\n' by {
                    assert(t[k] == s@[start + k]);
                }
                assert(t[i - start] == s@[i as int]);
                lemma_find_is(t, '\n', i - start);
                assert(t.take(i - start) =~= s@.subrange(start as int, i as int));
                assert(t.skip(i - start + 1) =~= s@.skip(i + 1));
                if i > start && s@[i - 1] == '\r' {
                    assert(s@.subrange(start as int, i as int).drop_last() =~= s@.subrange(
                        start as int,
                        i - 1,
                    ));
                    assert(line@ == spec_strip_cr(s@.subrange(start as int, i as int)));
                } else {
                    assert(line@ == spec_strip_cr(s@.subrange(start as int, i as int)));
                }
                assert(lines@.push(line).map_values(|l: String| l@) =~= lines@.map_values(
                    |l: String| l@,
                ).push(line@));
                assert(lines@.map_values(|l: String| l@).push(line@) + spec_lines(s@.skip(i + 1))
                    =~= lines@.map_values(|l: String| l@) + (seq![
                    spec_strip_cr(s@.subrange(start as int, i as int)),
                ] + spec_lines(s@.skip(i + 1))));
            }
            lines.push(line);
            start = i + 1;
        }
        i += 1;
    }
    if start < n {
        let last = s.substring_char(start, n).to_owned();
        proof {
            let t = s@.skip(start as int);
            assert forall|k: int| 0 <= k < t.len() implies t[k] != '\n' by {
                assert(t[k] == s@[start + k]);
            }
            lemma_find_is(t, '\n', t.len() as int);
            assert(lines@.push(last).map_values(|l: String| l@) =~= lines@.map_values(
                |l: String| l@,
            ) + seq![last@]);
        }
        lines.push(last);
    } else {
        proof {
            assert(s@.skip(start as int) =~= Seq::<char>::empty());
            assert(lines@.map_values(|l: String| l@) + spec_lines(Seq::<char>::empty())
                =~= lines@.map_values(|l: String| l@));
        }
    }
    lines
}

/// Whether `c` occurs in `s`.
pub fn contains_char(s: &str, c: char) -> (r: bool)
    ensures
        r == s@.contains(c),
{
    let n = s.unicode_len();
    let mut i: usize = 0;
    while i < n
        invariant
            n == s@.len(),
            i <= n,
            forall|k: int| 0 <= k < i ==> s@[k] != c,
        decreases n - i,
    {
        if s.get_char(i) == c {
            assert(s@[i as int] == c);
            return true;
        }
        i += 1;
    }
    false
}

/// The characters of `s` other than `c`, in order.
pub open spec fn spec_remove(s: Seq<char>, c: char) -> Seq<char> {
    s.filter(|ch: char| ch != c)
}

/// One removal step: extending a prefix by one character either keeps the
/// removal's result or appends that character.
proof fn lemma_remove_take_step(s: Seq<char>, c: char, i: int)
    requires
        0 <= i < s.len(),
    ensures
        s[i] != c ==> spec_remove(s.take(i + 1), c) == spec_remove(s.take(i), c).push(s[i]),
        s[i] == c ==> spec_remove(s.take(i + 1), c) == spec_remove(s.take(i), c),
{
    reveal_with_fuel(Seq::<_>::filter, 2);
    assert(s.take(i + 1).drop_last() =~= s.take(i));
    assert(s.take(i + 1).last() == s[i]);
    assert(s.take(i + 1).len() == i + 1);
}

/// Removes every occurrence of `c` from `s`.
pub fn remove_char(s: &str, c: char) -> (r: String)
    ensures
        r@ == spec_remove(s@, c),
{
    let n = s.unicode_len();
    let mut r = String::new();
    let mut i: usize = 0;
    proof {
        reveal_with_fuel(Seq::<_>::filter, 1);
        assert(s@.take(0) =~= Seq::<char>::empty());
        assert(r@ =~= spec_remove(s@.take(0), c));
    }
    while i < n
        invariant
            n == s@.len(),
            i <= n,
            r@ == spec_remove(s@.take(i as int), c),
        decreases n - i,
    {
        let ch = s.get_char(i);
        proof {
            lemma_remove_take_step(s@, c, i as int);
        }
        if ch != c {
            let piece = s.substring_char(i, i + 1);
            proof {
                assert(piece@ =~= seq![s@[i as int]]);
                assert(spec_remove(s@.take(i as int), c).push(s@[i as int]) =~= spec_remove(
                    s@.take(i as int),
                    c,
                ) + piece@);
            }
            r.append(piece);
        }
        i += 1;
    }
    proof {
        assert(s@.take(n as int) =~= s@);
    }
    r
}

/// Removing a character from a sequence in which it does not occur changes
/// nothing.
pub proof fn lemma_remove_absent(s: Seq<char>, c: char)
    requires
        forall|k: int| 0 <= k < s.len() ==> s[k] != c,
    ensures
        spec_remove(s, c) == s,
    decreases s.len(),
{
    reveal_with_fuel(Seq::<_>::filter, 2);
    if s.len() == 0 {
        assert(spec_remove(s, c) =~= s);
    } else {
        lemma_remove_absent(s.drop_last(), c);
        assert(spec_remove(s, c) =~= s.drop_last().push(s.last()));
        assert(s.drop_last().push(s.last()) =~= s);
    }
}

/// A removal leaves no occurrence of the removed character behind.
pub proof fn lemma_remove_complete(s: Seq<char>, c: char)
    ensures
        forall|k: int| 0 <= k < spec_remove(s, c).len() ==> spec_remove(s, c)[k] != c,
    decreases s.len(),
{
    reveal_with_fuel(Seq::<_>::filter, 2);
    if s.len() > 0 {
        lemma_remove_complete(s.drop_last(), c);
    }
}

/// Removing a character a second time changes nothing: the first removal
/// already left no occurrence behind.
pub proof fn lemma_remove_idempotent(s: Seq<char>, c: char)
    ensures
        spec_remove(spec_remove(s, c), c) == spec_remove(s, c),
{
    lemma_remove_complete(s, c);
    lemma_remove_absent(spec_remove(s, c), c);
}

/// Replaces every occurrence of the HTML entity `&amp;` by a bare
/// ampersand, scanning left to right without overlap.
pub open spec fn spec_unescape(s: Seq<char>) -> Seq<char>
    decreases s.len(),
{
    if s.len() == 0 {
        s
    } else if s.len() >= 5 && s[0] == '&' && s[1] == 'a' && s[2] == 'm' && s[3] == 'p' && s[4]
        == ';' {
        seq!['&'] + spec_unescape(s.skip(5))
    } else {
        seq![s[0]] + spec_unescape(s.skip(1))
    }
}

/// Undoes HTML ampersand escaping, as [`spec_unescape`] describes.
pub fn unescape_amp(s: &str) -> (r: String)
    ensures
        r@ == spec_unescape(s@),
{
    let n = s.unicode_len();
    let mut r = String::new();
    let mut i: usize = 0;
    proof {
        assert(s@.skip(0) =~= s@);
        assert(r@ + spec_unescape(s@) =~= spec_unescape(s@));
    }
    while i < n
        invariant
            n == s@.len(),
            i <= n,
            spec_unescape(s@) == r@ + spec_unescape(s@.skip(i as int)),
        decreases n - i,
    {
        let t = Ghost(s@.skip(i as int));
        if n - i >= 5 && s.get_char(i) == '&' && s.get_char(i + 1) == 'a' && s.get_char(i + 2)
            == 'm' && s.get_char(i + 3) == 'p' && s.get_char(i + 4) == ';' {
            proof {
                assert(t@[0] == s@[i as int]);
                assert(t@[1] == s@[i + 1]);
                assert(t@[2] == s@[i + 2]);
                assert(t@[3] == s@[i + 3]);
                assert(t@[4] == s@[i + 4]);
                assert(t@.skip(5) =~= s@.skip(i + 5));
                reveal_strlit("&");
                assert(("&")@ =~= seq!['&']);
                assert(r@ + (seq!['&'] + spec_unescape(s@.skip(i + 5))) =~= (r@ + ("&")@)
                    + spec_unescape(s@.skip(i + 5)));
            }
            r.append("&");
            i += 5;
        } else {
            let piece = s.substring_char(i, i + 1);
            proof {
                assert(t@[0] == s@[i as int]);
                assert(t@.skip(1) =~= s@.skip(i + 1));
                assert(piece@ =~= seq![s@[i as int]]);
                assert(r@ + (seq![s@[i as int]] + spec_unescape(s@.skip(i + 1))) =~= (r@ + piece@)
                    + spec_unescape(s@.skip(i + 1)));
            }
            r.append(piece);
            i += 1;
        }
    }
    proof {
        assert(s@.skip(n as int) =~= Seq::<char>::empty());
        assert(r@ + spec_unescape(Seq::<char>::empty()) =~= r@);
    }
    r
}

} // verus!
