//! Character and string helpers shared by the rest of the library.

use vstd::prelude::*;

verus! {

broadcast use vstd::string::group_string_axioms;

/// The characters that carry the Unicode `White_Space` property.
pub open spec fn is_white_space(c: char) -> bool {
    ||| ('\u{9}' <= c && c <= '\u{d}')
    ||| c == ' '
    ||| c == '\u{85}'
    ||| c == '\u{a0}'
    ||| c == '\u{1680}'
    ||| ('\u{2000}' <= c && c <= '\u{200a}')
    ||| c == '\u{2028}'
    ||| c == '\u{2029}'
    ||| c == '\u{202f}'
    ||| c == '\u{205f}'
    ||| c == '\u{3000}'
}

/// An ASCII decimal digit.
pub open spec fn is_digit(c: char) -> bool {
    '0' <= c && c <= '9'
}

/// Calls `char::is_whitespace`, which the standard library documents as
/// holding exactly for the characters with the Unicode `White_Space`
/// property; the contract restates that list.
#[verifier::external_body]
pub(crate) fn is_whitespace(c: char) -> (b: bool)
    ensures
        b == is_white_space(c),
{
    c.is_whitespace()
}

/// Calls `String::push`, which appends one character at the end.
#[verifier::external_body]
pub(crate) fn push_char(s: &mut String, c: char)
    ensures
        final(s)@ == old(s)@.push(c),
{
    s.push(c)
}

/// An ASCII decimal digit, tested on an executable character.
pub fn is_ascii_digit(c: char) -> (b: bool)
    ensures
        b == is_digit(c),
{
    '0' <= c && c <= '9'
}

/// The characters of `s`, in order.
pub fn chars_of(s: &str) -> (v: Vec<char>)
    ensures
        v@ == s@,
{
    let mut v: Vec<char> = Vec::new();
    let mut it = s.chars();
    for c in iter: it
        invariant
            v@ == iter.seq().take(iter.index() as int),
            iter.seq() == s@,
    {
        v.push(c);
    }
    v
}

/// A `String` holding the characters of `v`.
pub fn string_of(v: &Vec<char>) -> (s: String)
    ensures
        s@ == v@,
{
    let mut s = String::new();
    let mut i: usize = 0;
    while i < v.len()
        invariant
            i <= v.len(),
            s@ == v@.take(i as int),
        decreases v.len() - i,
    {
        push_char(&mut s, v[i]);
        i = i + 1;
        assert(v@.take(i as int) == v@.take(i - 1).push(v@[i - 1]));
    }
    assert(v@.take(v.len() as int) == v@);
    s
}

/// Whether two character vectors hold the same characters.
pub fn same_chars(a: &Vec<char>, b: &Vec<char>) -> (r: bool)
    ensures
        r == (a@ == b@),
{
    if a.len() != b.len() {
        return false;
    }
    let mut i: usize = 0;
    while i < a.len()
        invariant
            a.len() == b.len(),
            i <= a.len(),
            forall|k: int| 0 <= k < i ==> a@[k] == b@[k],
        decreases a.len() - i,
    {
        if a[i] != b[i] {
            return false;
        }
        i = i + 1;
    }
    assert(a@ =~= b@);
    true
}

/// The texts held by a sequence of strings.
pub open spec fn texts(v: Seq<String>) -> Seq<Seq<char>> {
    v.map_values(|s: String| s@)
}

/// The texts held by a sequence of character vectors.
pub open spec fn char_lists(v: Seq<Vec<char>>) -> Seq<Seq<char>> {
    v.map_values(|c: Vec<char>| c@)
}

/// The strings of a list of character vectors.
pub fn strings_of(v: &Vec<Vec<char>>) -> (r: Vec<String>)
    ensures
        texts(r@) == char_lists(v@),
{
    let mut r: Vec<String> = Vec::new();
    let mut i: usize = 0;
    while i < v.len()
        invariant
            i <= v.len(),
            texts(r@) == char_lists(v@).take(i as int),
        decreases v.len() - i,
    {
        let s = string_of(&v[i]);
        assert(texts(r@).len() == i);
        r.push(s);
        i = i + 1;
        assert(texts(r@) =~= char_lists(v@).take(i as int));
    }
    assert(char_lists(v@).take(v.len() as int) =~= char_lists(v@));
    r
}

/// `s` without its leading whitespace.
pub open spec fn trim_start_ws(s: Seq<char>) -> Seq<char>
    decreases s.len(),
{
    if s.len() > 0 && is_white_space(s[0]) {
        trim_start_ws(s.skip(1))
    } else {
        s
    }
}

/// `s` without its trailing whitespace.
pub open spec fn trim_end_ws(s: Seq<char>) -> Seq<char>
    decreases s.len(),
{
    if s.len() > 0 && is_white_space(s.last()) {
        trim_end_ws(s.drop_last())
    } else {
        s
    }
}

/// `s` without leading and trailing whitespace.
pub open spec fn trim_ws(s: Seq<char>) -> Seq<char> {
    trim_end_ws(trim_start_ws(s))
}

/// `s` without the characters `c` at its start.
pub open spec fn trim_start_char(s: Seq<char>, c: char) -> Seq<char>
    decreases s.len(),
{
    if s.len() > 0 && s[0] == c {
        trim_start_char(s.skip(1), c)
    } else {
        s
    }
}

/// `s` without the characters `c` at its end.
pub open spec fn trim_end_char(s: Seq<char>, c: char) -> Seq<char>
    decreases s.len(),
{
    if s.len() > 0 && s.last() == c {
        trim_end_char(s.drop_last(), c)
    } else {
        s
    }
}

/// The parts joined, with `sep` between two neighbours.
pub open spec fn join(parts: Seq<Seq<char>>, sep: Seq<char>) -> Seq<char>
    decreases parts.len(),
{
    if parts.len() == 0 {
        Seq::empty()
    } else if parts.len() == 1 {
        parts[0]
    } else {
        join(parts.drop_last(), sep) + sep + parts.last()
    }
}

/// `s` without leading and trailing whitespace.
pub fn trim(s: &Vec<char>) -> (r: Vec<char>)
    ensures
        r@ == trim_ws(s@),
{
    let mut a: usize = 0;
    assert(s@.skip(0) =~= s@);
    while a < s.len() && is_whitespace(s[a])
        invariant
            a <= s.len(),
            trim_start_ws(s@) == trim_start_ws(s@.skip(a as int)),
        decreases s.len() - a,
    {
        assert(s@.skip(a as int).skip(1) =~= s@.skip(a + 1));
        a = a + 1;
    }
    let ghost t = s@.skip(a as int);
    assert(trim_start_ws(s@) == t);
    let mut b: usize = s.len();
    while b > a && is_whitespace(s[b - 1])
        invariant
            a <= b <= s.len(),
            trim_end_ws(t) == trim_end_ws(s@.subrange(a as int, b as int)),
        decreases b,
    {
        assert(s@.subrange(a as int, b as int).drop_last() =~= s@.subrange(a as int, b - 1));
        b = b - 1;
    }
    assert(s@.skip(a as int) =~= s@.subrange(a as int, s.len() as int));
    slice_of(s, a, b)
}

/// `s` without the characters `c` at its start.
pub fn trim_start_matches(s: &Vec<char>, c: char) -> (r: Vec<char>)
    ensures
        r@ == trim_start_char(s@, c),
{
    let mut a: usize = 0;
    assert(s@.skip(0) =~= s@);
    while a < s.len() && s[a] == c
        invariant
            a <= s.len(),
            trim_start_char(s@, c) == trim_start_char(s@.skip(a as int), c),
        decreases s.len() - a,
    {
        assert(s@.skip(a as int).skip(1) =~= s@.skip(a + 1));
        a = a + 1;
    }
    assert(s@.skip(a as int) =~= s@.subrange(a as int, s.len() as int));
    slice_of(s, a, s.len())
}

/// `s` without the characters `c` at its end.
pub fn trim_end_matches(s: &Vec<char>, c: char) -> (r: Vec<char>)
    ensures
        r@ == trim_end_char(s@, c),
{
    let mut b: usize = s.len();
    assert(s@.take(s.len() as int) =~= s@);
    while b > 0 && s[b - 1] == c
        invariant
            b <= s.len(),
            trim_end_char(s@, c) == trim_end_char(s@.take(b as int), c),
        decreases b,
    {
        assert(s@.take(b as int).drop_last() =~= s@.take(b - 1));
        b = b - 1;
    }
    assert(s@.take(b as int) =~= s@.subrange(0, b as int));
    slice_of(s, 0, b)
}

/// The characters of `s` from index `a` up to index `b`.
pub fn slice_of(s: &Vec<char>, a: usize, b: usize) -> (r: Vec<char>)
    requires
        a <= b <= s.len(),
    ensures
        r@ == s@.subrange(a as int, b as int),
{
    let mut r: Vec<char> = Vec::new();
    let mut i: usize = a;
    while i < b
        invariant
            a <= i <= b <= s.len(),
            r@ == s@.subrange(a as int, i as int),
        decreases b - i,
    {
        r.push(s[i]);
        i = i + 1;
        assert(r@ =~= s@.subrange(a as int, i as int));
    }
    r
}

/// Appends the characters of `src` to `dst`.
pub fn append_chars(dst: &mut Vec<char>, src: &Vec<char>)
    ensures
        final(dst)@ == old(dst)@ + src@,
{
    let ghost start = dst@;
    let mut i: usize = 0;
    while i < src.len()
        invariant
            i <= src.len(),
            dst@ == start + src@.take(i as int),
        decreases src.len() - i,
    {
        dst.push(src[i]);
        i = i + 1;
        assert(dst@ =~= start + src@.take(i as int));
    }
    assert(src@.take(src.len() as int) =~= src@);
}

/// The parts joined, with `sep` between two neighbours.
pub fn join_chars(parts: &Vec<Vec<char>>, sep: &Vec<char>) -> (r: Vec<char>)
    ensures
        r@ == join(char_lists(parts@), sep@),
{
    let mut r: Vec<char> = Vec::new();
    let mut i: usize = 0;
    while i < parts.len()
        invariant
            i <= parts.len(),
            r@ == join(char_lists(parts@).take(i as int), sep@),
        decreases parts.len() - i,
    {
        let ghost done = char_lists(parts@).take(i as int);
        let ghost next = char_lists(parts@).take(i + 1);
        assert(next.drop_last() =~= done);
        assert(next.last() == parts@[i as int]@);
        if i > 0 {
            append_chars(&mut r, sep);
        } else {
            assert(next =~= seq![parts@[0]@]);
        }
        append_chars(&mut r, &parts[i]);
        i = i + 1;
    }
    assert(char_lists(parts@).take(parts.len() as int) =~= char_lists(parts@));
    r
}

/// The characters of `lit`, as a fresh vector.
pub fn chars_lit(lit: &str) -> (v: Vec<char>)
    ensures
        v@ == lit@,
{
    chars_of(lit)
}

/// A `String` holding the text `s`.
pub fn owned(s: &str) -> (r: String)
    ensures
        r@ == s@,
{
    let v = chars_of(s);
    string_of(&v)
}

/// The pieces of `s` between the occurrences of `sep`: one more piece than
/// there are separators, some of them possibly empty.
pub open spec fn split_on<A>(s: Seq<A>, sep: A) -> Seq<Seq<A>>
    decreases s.len(),
{
    if s.len() == 0 {
        seq![Seq::empty()]
    } else {
        let p = split_on(s.drop_last(), sep);
        if s.last() == sep {
            p.push(Seq::empty())
        } else {
            p.update(p.len() - 1, p.last().push(s.last()))
        }
    }
}

/// A split has at least one piece; its last piece is empty exactly when the
/// sequence ends with the separator.
pub proof fn lemma_split_nonempty<A>(s: Seq<A>, sep: A)
    ensures
        split_on(s, sep).len() >= 1,
        s.len() > 0 && s.last() != sep ==> split_on(s, sep).last().len() > 0,
        s.len() > 0 && s.last() == sep ==> split_on(s, sep).len() > 1 && split_on(s, sep).last().len() == 0,
    decreases s.len(),
{
    if s.len() > 0 {
        lemma_split_nonempty(s.drop_last(), sep);
    }
}

/// The pieces found in a prefix of `s` stay pieces of `s`: all but the last,
/// and the last one too once a separator follows the prefix.
pub proof fn lemma_split_prefix<A>(s: Seq<A>, i: int, sep: A)
    requires
        0 <= i <= s.len(),
    ensures
        ({
            let p = split_on(s.take(i), sep);
            let q = split_on(s, sep);
            &&& p.len() <= q.len()
            &&& forall|k: int| 0 <= k < p.len() - 1 ==> #[trigger] q[k] == p[k]
            &&& (i < s.len() && s[i] == sep) ==> p.len() < q.len() && q[p.len() - 1] == p.last()
        }),
    decreases s.len(),
{
    lemma_split_nonempty(s.take(i), sep);
    if s.len() == i {
        assert(s.take(i) =~= s);
    } else {
        let s2 = s.drop_last();
        assert(s2.take(i) =~= s.take(i));
        lemma_split_prefix(s2, i, sep);
        lemma_split_nonempty(s2, sep);
        if s.len() == i + 1 {
            assert(s2 =~= s.take(i));
        }
    }
}

/// The pieces of a split, put back together, are the sequence without its
/// separators, and no piece holds a separator.
pub proof fn lemma_split_flatten<A>(s: Seq<A>, sep: A)
    ensures
        split_on(s, sep).flatten_alt() == s.filter(|x: A| x != sep),
        forall|k: int|
            0 <= k < split_on(s, sep).len() ==> !(#[trigger] split_on(s, sep)[k]).contains(sep),
    decreases s.len(),
{
    reveal(Seq::filter);
    lemma_split_nonempty(s, sep);
    if s.len() == 0 {
        let q = split_on(s, sep);
        assert(q.drop_last() =~= Seq::<Seq<A>>::empty());
        assert(q.drop_last().flatten_alt() =~= Seq::<A>::empty());
        assert(q.last() =~= Seq::<A>::empty());
        assert(q.flatten_alt() =~= Seq::<A>::empty());
        assert(s.filter(|x: A| x != sep) =~= Seq::<A>::empty());
    } else {
        let p = split_on(s.drop_last(), sep);
        let q = split_on(s, sep);
        lemma_split_flatten(s.drop_last(), sep);
        lemma_split_nonempty(s.drop_last(), sep);
        if s.last() == sep {
            assert(q.drop_last() =~= p);
            assert(q.flatten_alt() =~= p.flatten_alt());
        } else {
            assert(q.drop_last() =~= p.drop_last());
            assert(p.flatten_alt() == p.drop_last().flatten_alt() + p.last());
            assert(q.flatten_alt() =~= p.flatten_alt().push(s.last()));
            assert forall|k: int| 0 <= k < q.len() implies !(#[trigger] q[k]).contains(sep) by {
                if k == q.len() - 1 {
                    if q[k].contains(sep) {
                        let m = choose|m: int| 0 <= m < q[k].len() && q[k][m] == sep;
                        if m < p.last().len() {
                            assert(p[k].contains(sep)) by {
                                assert(p[k][m] == sep);
                            }
                        }
                    }
                } else {
                    assert(q[k] == p[k]);
                }
            }
        }
    }
}

/// Whether the characters spell the literal.
pub fn is_text(v: &Vec<char>, lit: &str) -> (r: bool)
    ensures
        r == (v@ == lit@),
{
    let l = chars_lit(lit);
    same_chars(v, &l)
}

/// The pieces of `s` between the occurrences of `sep`.
pub fn split_chars(s: &Vec<char>, sep: char) -> (r: Vec<Vec<char>>)
    ensures
        char_lists(r@) == split_on(s@, sep),
{
    let mut done: Vec<Vec<char>> = Vec::new();
    let mut cur: Vec<char> = Vec::new();
    let mut i: usize = 0;
    assert(s@.take(0) =~= Seq::<char>::empty());
    assert(char_lists(done@) =~= split_on(s@.take(0), sep).drop_last());
    while i < s.len()
        invariant
            i <= s.len(),
            char_lists(done@) == split_on(s@.take(i as int), sep).drop_last(),
            cur@ == split_on(s@.take(i as int), sep).last(),
        decreases s.len() - i,
    {
        let ghost p = split_on(s@.take(i as int), sep);
        proof {
            lemma_split_nonempty(s@.take(i as int), sep);
            assert(s@.take(i + 1).drop_last() =~= s@.take(i as int));
        }
        if s[i] == sep {
            let mut piece: Vec<char> = Vec::new();
            std::mem::swap(&mut piece, &mut cur);
            let ghost before = done@;
            assert(char_lists(done@).len() == done@.len());
            done.push(piece);
            assert(char_lists(done@) =~= char_lists(before).push(p.last()));
            assert(p.drop_last().push(p.last()) =~= p);
        } else {
            cur.push(s[i]);
            assert(split_on(s@.take(i + 1), sep).drop_last() =~= p.drop_last());
        }
        i = i + 1;
    }
    assert(s@.take(s.len() as int) =~= s@);
    proof {
        lemma_split_nonempty(s@, sep);
    }
    let ghost before = done@;
    let ghost last = cur@;
    assert(char_lists(done@).len() == done@.len());
    done.push(cur);
    assert(char_lists(done@) =~= char_lists(before).push(last));
    assert(split_on(s@, sep).drop_last().push(split_on(s@, sep).last()) =~= split_on(s@, sep));
    done
}

/// Whether `char::is_alphanumeric` holds of `c` (Unicode alphabetic or
/// numeric).
pub uninterp spec fn char_is_alphanumeric(c: char) -> bool;

/// An ASCII letter or digit.
pub open spec fn is_ascii_alnum(c: char) -> bool {
    ('a' <= c && c <= 'z') || ('A' <= c && c <= 'Z') || ('0' <= c && c <= '9')
}

/// Calls `char::is_alphanumeric`. Its result is named, not stated; the
/// contract adds only what the documentation gives for ASCII characters:
/// there, exactly the letters and digits are alphanumeric.
#[verifier::external_body]
pub(crate) fn is_alphanumeric(c: char) -> (b: bool)
    ensures
        b == char_is_alphanumeric(c),
        c <= '\u{7f}' ==> (b == is_ascii_alnum(c)),
{
    c.is_alphanumeric()
}

/// What `str::to_uppercase` returns for a text (Unicode uppercase mapping,
/// which may change the length).
pub uninterp spec fn text_to_uppercase(s: Seq<char>) -> Seq<char>;

/// Calls `str::to_uppercase`. Its result is named, not stated.
#[verifier::external_body]
pub(crate) fn to_uppercase(s: &str) -> (r: String)
    ensures
        r@ == text_to_uppercase(s@),
{
    s.to_uppercase()
}

/// The number of bytes of the UTF-8 encoding of `s`, as `str::len` counts it.
pub open spec fn utf8_len(s: Seq<char>) -> usize {
    vstd::utf8::encode_utf8(s).len() as usize
}

/// The byte length of the text `s`.
pub fn byte_len(s: &str) -> (n: usize)
    ensures
        n == utf8_len(s@),
{
    s.len()
}

/// The decimal digit `d` as a character.
pub open spec fn digit_char(d: nat) -> char {
    if d == 0 { '0' }
    else if d == 1 { '1' }
    else if d == 2 { '2' }
    else if d == 3 { '3' }
    else if d == 4 { '4' }
    else if d == 5 { '5' }
    else if d == 6 { '6' }
    else if d == 7 { '7' }
    else if d == 8 { '8' }
    else { '9' }
}

/// The decimal notation of `n`, without leading zeros.
pub open spec fn decimal(n: nat) -> Seq<char>
    decreases n,
{
    if n < 10 {
        seq![digit_char(n)]
    } else {
        decimal(n / 10).push(digit_char(n % 10))
    }
}

fn digit(d: usize) -> (c: char)
    requires
        d < 10,
    ensures
        c == digit_char(d as nat),
{
    if d == 0 { '0' }
    else if d == 1 { '1' }
    else if d == 2 { '2' }
    else if d == 3 { '3' }
    else if d == 4 { '4' }
    else if d == 5 { '5' }
    else if d == 6 { '6' }
    else if d == 7 { '7' }
    else if d == 8 { '8' }
    else { '9' }
}

/// The decimal notation of `n`.
pub fn decimal_chars(n: usize) -> (r: Vec<char>)
    ensures
        r@ == decimal(n as nat),
    decreases n,
{
    if n < 10 {
        let mut r: Vec<char> = Vec::new();
        r.push(digit(n));
        assert(r@ =~= seq![digit_char(n as nat)]);
        r
    } else {
        let mut r = decimal_chars(n / 10);
        r.push(digit(n % 10));
        r
    }
}

/// The index of the first `c` at or after `from`, or the length.
pub open spec fn index_of_from(s: Seq<char>, c: char, from: int) -> int
    decreases s.len() - from,
{
    if from < 0 || from >= s.len() {
        s.len() as int
    } else if s[from] == c {
        from
    } else {
        index_of_from(s, c, from + 1)
    }
}

/// The search for a character ends inside the text on that character, or at
/// its end.
pub proof fn lemma_index_of_bounds(s: Seq<char>, c: char, from: int)
    requires
        0 <= from,
    ensures
        from <= index_of_from(s, c, from) <= s.len() || (from > s.len() && index_of_from(s, c, from) == s.len()),
        index_of_from(s, c, from) < s.len() ==> s[index_of_from(s, c, from)] == c,
    decreases s.len() - from,
{
    if from < s.len() && s[from] != c {
        lemma_index_of_bounds(s, c, from + 1);
    }
}

/// Searching in a suffix finds the same place, shifted.
pub proof fn lemma_index_shift(s: Seq<char>, c: char, i: int, from: int)
    requires
        0 <= i <= from,
        i <= s.len(),
    ensures
        index_of_from(s.skip(i), c, from - i) == index_of_from(s, c, from) - i,
    decreases s.len() - from,
{
    if from < s.len() {
        assert(s.skip(i)[from - i] == s[from]);
    }
    if from < s.len() && s[from] != c {
        lemma_index_shift(s, c, i, from + 1);
    }
}

} // verus!
