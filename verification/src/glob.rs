//! The virtual file system and filename globbing.

use vstd::prelude::*;
use crate::text::{
    char_lists, chars_lit, chars_of, index_of_from, join, join_chars,
    lemma_index_of_bounds, lemma_index_shift, same_chars, slice_of, string_of, texts,
};

verus! {

/// Whether the characters `spec` of a bracket class, from index `i` on, hold
/// `ch`: either as one of the ranges `a-z` or as a single character.
pub open spec fn class_items_match(spec: Seq<char>, i: int, ch: char) -> bool
    decreases spec.len() - i,
{
    if i < 0 || i >= spec.len() {
        false
    } else if i + 2 < spec.len() && spec[i + 1] == '-' {
        (spec[i] <= ch && ch <= spec[i + 2]) || class_items_match(spec, i + 3, ch)
    } else {
        spec[i] == ch || class_items_match(spec, i + 1, ch)
    }
}

/// Whether a bracket class (what stands between `[` and `]`) accepts `ch`;
/// a leading `!` negates it, an empty class accepts nothing.
pub open spec fn class_matches(spec: Seq<char>, ch: char) -> bool {
    if spec.len() == 0 {
        false
    } else if spec[0] == '!' {
        !class_items_match(spec.skip(1), 0, ch)
    } else {
        class_items_match(spec, 0, ch)
    }
}

/// Whether the pattern matches the whole text: `*` stands for any run of
/// characters without `/`, `?` for any one character but `/`, `[...]` for
/// one character of the class (a `[` without a `]` is literal), anything
/// else for itself.
pub open spec fn glob_match(pat: Seq<char>, text: Seq<char>) -> bool
    decreases pat.len() + text.len(),
{
    if pat.len() == 0 {
        text.len() == 0
    } else if pat[0] == '*' {
        glob_match(pat.skip(1), text) || (text.len() > 0 && text[0] != '/' && glob_match(
            pat,
            text.skip(1),
        ))
    } else if text.len() == 0 {
        false
    } else if pat[0] == '?' {
        text[0] != '/' && glob_match(pat.skip(1), text.skip(1))
    } else if pat[0] == '[' {
        let close = index_of_from(pat, ']', 0);
        if close < pat.len() {
            proof {
                lemma_index_of_bounds(pat, ']', 0);
            }
            class_matches(pat.subrange(1, close), text[0]) && glob_match(
                pat.skip(close + 1),
                text.skip(1),
            )
        } else {
            pat[0] == text[0] && glob_match(pat.skip(1), text.skip(1))
        }
    } else {
        pat[0] == text[0] && glob_match(pat.skip(1), text.skip(1))
    }
}

/// Whether a file name matches an expression: hidden names (starting with
/// `.`) only match expressions that start with `.` too.
pub open spec fn name_matches(expression: Seq<char>, filename: Seq<char>) -> bool {
    if filename.len() > 0 && filename[0] == '.' && !(expression.len() > 0 && expression[0] == '.') {
        false
    } else {
        glob_match(expression, filename)
    }
}

/// Whether `a` comes strictly before `b` in lexicographic order.
pub open spec fn text_lt(a: Seq<char>, b: Seq<char>) -> bool
    decreases a.len(),
{
    if a.len() == 0 {
        b.len() > 0
    } else if b.len() == 0 {
        false
    } else if a[0] != b[0] {
        a[0] < b[0]
    } else {
        text_lt(a.skip(1), b.skip(1))
    }
}

/// `s` (sorted) with `x` put in its place: after every element that is not
/// greater than `x`.
pub open spec fn insert_sorted(s: Seq<Seq<char>>, x: Seq<char>) -> Seq<Seq<char>>
    decreases s.len(),
{
    if s.len() == 0 {
        seq![x]
    } else if !text_lt(x, s.last()) {
        s.push(x)
    } else {
        insert_sorted(s.drop_last(), x).push(s.last())
    }
}

/// The texts in lexicographic order.
pub open spec fn sort_texts(s: Seq<Seq<char>>) -> Seq<Seq<char>>
    decreases s.len(),
{
    if s.len() == 0 {
        s
    } else {
        insert_sorted(sort_texts(s.drop_last()), s.last())
    }
}

/// The files that an expression matches, in creation order.
pub open spec fn matching_files(files: Seq<Seq<char>>, expression: Seq<char>) -> Seq<Seq<char>> {
    files.filter(|f: Seq<char>| name_matches(expression, f))
}

/// What `MATCH expression` prints: the matching names in order, separated by
/// spaces, or the expression itself when nothing matches.
pub open spec fn listing(files: Seq<Seq<char>>, expression: Seq<char>) -> Seq<char> {
    let m = matching_files(files, expression);
    if m.len() == 0 {
        expression
    } else {
        join(sort_texts(m), " "@)
    }
}

/// The files of the virtual file system.
#[derive(Debug)]
pub struct FileSystem {
    files: Vec<String>,
}

impl View for FileSystem {
    type V = Seq<Seq<char>>;

    /// The file names, in the order they were created.
    closed spec fn view(&self) -> Seq<Seq<char>> {
        texts(self.files@)
    }
}

impl FileSystem {
    /// No file is created twice.
    #[verifier::type_invariant]
    spec fn no_duplicates(&self) -> bool {
        texts(self.files@).no_duplicates()
    }

    /// An empty file system.
    pub fn new() -> (fs: Self)
        ensures
            fs@ == Seq::<Seq<char>>::empty(),
    {
        let fs = FileSystem { files: Vec::new() };
        assert(texts(fs.files@) =~= Seq::<Seq<char>>::empty());
        fs
    }

    /// Whether the characters of a bracket class accept `ch`.
    fn match_char_class(&self, class_spec: &Vec<char>, ch: char) -> (r: bool)
        ensures
            r == class_matches(class_spec@, ch),
    {
        if class_spec.len() == 0 {
            return false;
        }
        let negated = class_spec[0] == '!';
        let spec = if negated {
            let rest = slice_of(class_spec, 1, class_spec.len());
            assert(rest@ =~= class_spec@.skip(1));
            rest
        } else {
            slice_of(class_spec, 0, class_spec.len())
        };
        assert(!negated ==> spec@ =~= class_spec@);
        let matched = class_items(&spec, ch);
        if negated {
            !matched
        } else {
            matched
        }
    }

    /// Whether the pattern, from index `pi` on, matches the text from index
    /// `ti` on.
    fn match_chars(&self, pat: &Vec<char>, pi: usize, text: &Vec<char>, ti: usize) -> (r: bool)
        requires
            pi <= pat.len(),
            ti <= text.len(),
        ensures
            r == glob_match(pat@.skip(pi as int), text@.skip(ti as int)),
        decreases pat.len() - pi + text.len() - ti,
    {
        let ghost p = pat@.skip(pi as int);
        let ghost t = text@.skip(ti as int);
        if pi < pat.len() {
            assert(p.skip(1) =~= pat@.skip(pi + 1));
            assert(p[0] == pat@[pi as int]);
        }
        if ti < text.len() {
            assert(t.skip(1) =~= text@.skip(ti + 1));
            assert(t[0] == text@[ti as int]);
        }
        if pi == pat.len() {
            ti == text.len()
        } else if pat[pi] == '*' {
            self.match_chars(pat, pi + 1, text, ti) || (ti < text.len() && text[ti] != '/'
                && self.match_chars(pat, pi, text, ti + 1))
        } else if ti == text.len() {
            false
        } else if pat[pi] == '?' {
            text[ti] != '/' && self.match_chars(pat, pi + 1, text, ti + 1)
        } else if pat[pi] == '[' {
            let mut k = pi;
            while k < pat.len() && pat[k] != ']'
                invariant
                    pi <= k <= pat.len(),
                    index_of_from(pat@, ']', pi as int) == index_of_from(pat@, ']', k as int),
                decreases pat.len() - k,
            {
                k = k + 1;
            }
            proof {
                lemma_index_shift(pat@, ']', pi as int, pi as int);
            }
            if k < pat.len() {
                assert(k > pi);
                let class = slice_of(pat, pi + 1, k);
                assert(p.subrange(1, k - pi) =~= class@);
                assert(p.skip(k - pi + 1) =~= pat@.skip(k + 1));
                self.match_char_class(&class, text[ti]) && self.match_chars(pat, k + 1, text, ti + 1)
            } else {
                pat[pi] == text[ti] && self.match_chars(pat, pi + 1, text, ti + 1)
            }
        } else {
            pat[pi] == text[ti] && self.match_chars(pat, pi + 1, text, ti + 1)
        }
    }

    /// Whether a file name matches an expression.
    fn is_match(&self, expression: &Vec<char>, filename: &Vec<char>) -> (r: bool)
        ensures
            r == name_matches(expression@, filename@),
    {
        if filename.len() > 0 && filename[0] == '.' && !(expression.len() > 0 && expression[0] == '.') {
            return false;
        }
        assert(expression@.skip(0) =~= expression@);
        assert(filename@.skip(0) =~= filename@);
        self.match_chars(expression, 0, filename, 0)
    }

    /// `MATCH expression`: the names of the files that match, sorted and
    /// separated by spaces, or the expression itself when none does.
    pub fn match_filenames(&self, expression: &str) -> (r: String)
        ensures
            r@ == listing(self@, expression@),
    {
        let expr = chars_of(expression);
        let ghost files = texts(self.files@);
        let ghost pred = |f: Seq<char>| name_matches(expression@, f);
        let mut matches: Vec<Vec<char>> = Vec::new();
        let mut i: usize = 0;
        assert(files.take(0) =~= Seq::<Seq<char>>::empty());
        assert(char_lists(matches@) =~= files.take(0).filter(pred)) by {
            reveal(Seq::filter);
        }
        while i < self.files.len()
            invariant
                i <= self.files.len(),
                files == texts(self.files@),
                expr@ == expression@,
                pred == (|f: Seq<char>| name_matches(expression@, f)),
                char_lists(matches@) == files.take(i as int).filter(pred),
            decreases self.files.len() - i,
        {
            let name = chars_of(self.files[i].as_str());
            assert(files[i as int] == name@);
            assert(files.take(i + 1) =~= files.take(i as int).push(name@));
            proof {
                files.take(i as int).lemma_filter_push(name@, pred);
            }
            let ghost before = matches@;
            assert(char_lists(matches@).len() == matches@.len());
            if self.is_match(&expr, &name) {
                matches.push(name);
                assert(char_lists(matches@) =~= char_lists(before).push(files[i as int]));
            }
            i = i + 1;
        }
        assert(files.take(self.files.len() as int) =~= files);
        if matches.len() == 0 {
            return crate::text::owned(expression);
        }
        let mut sorted: Vec<Vec<char>> = Vec::new();
        let mut j: usize = 0;
        assert(char_lists(matches@).take(0) =~= Seq::<Seq<char>>::empty());
        assert(char_lists(sorted@) =~= Seq::<Seq<char>>::empty());
        while j < matches.len()
            invariant
                j <= matches.len(),
                char_lists(sorted@) == sort_texts(char_lists(matches@).take(j as int)),
            decreases matches.len() - j,
        {
            let ghost m = char_lists(matches@);
            assert(m.take(j + 1).drop_last() =~= m.take(j as int));
            assert(m.take(j + 1).last() == matches@[j as int]@);
            let x = slice_of(&matches[j], 0, matches[j].len());
            assert(x@ =~= matches@[j as int]@);
            insert_in_order(&mut sorted, x);
            j = j + 1;
        }
        assert(char_lists(matches@).take(matches.len() as int) =~= char_lists(matches@));
        let sep = chars_lit(" ");
        let joined = join_chars(&sorted, &sep);
        string_of(&joined)
    }

    /// Creates a file; creating an existing one changes nothing.
    pub fn create_file(&mut self, filename: &str)
        ensures
            old(self)@.contains(filename@) ==> final(self)@ == old(self)@,
            !old(self)@.contains(filename@) ==> final(self)@ == old(self)@.push(filename@),
            final(self)@.no_duplicates(),
    {
        proof {
            use_type_invariant(&*self);
        }
        let name = chars_of(filename);
        let mut i: usize = 0;
        while i < self.files.len()
            invariant
                i <= self.files.len(),
                forall|k: int| 0 <= k < i ==> texts(self.files@)[k] != filename@,
                texts(self.files@).no_duplicates(),
                self.files@ == old(self).files@,
                name@ == filename@,
            decreases self.files.len() - i,
        {
            let f = chars_of(self.files[i].as_str());
            assert(texts(self.files@)[i as int] == self.files@[i as int]@);
            if same_chars(&f, &name) {
                assert(texts(self.files@)[i as int] == filename@);
                assert(texts(self.files@).contains(filename@));
                return;
            }
            i = i + 1;
        }
        let ghost before = texts(self.files@);
        assert(!before.contains(filename@));
        let s = string_of(&name);
        let mut files: Vec<String> = Vec::new();
        std::mem::swap(&mut files, &mut self.files);
        assert(texts(files@).len() == files@.len());
        files.push(s);
        assert(texts(files@) =~= before.push(filename@));
        assert(texts(files@).no_duplicates()) by {
            assert forall|a: int, b: int| 0 <= a < b < texts(files@).len() implies texts(files@)[a] != texts(files@)[b] by {
                if b == before.len() {
                    assert(before.contains(before[a]));
                }
            }
        }
        self.files = files;
    }
}

/// Whether the class items from index 0 on accept `ch`.
fn class_items(spec: &Vec<char>, ch: char) -> (r: bool)
    ensures
        r == class_items_match(spec@, 0, ch),
{
    let mut i: usize = 0;
    while i < spec.len()
        invariant
            class_items_match(spec@, 0, ch) == class_items_match(spec@, i as int, ch),
        decreases spec.len() - i,
    {
        if spec.len() >= 3 && i < spec.len() - 2 && spec[i + 1] == '-' {
            if ch >= spec[i] && ch <= spec[i + 2] {
                return true;
            }
            i = i + 3;
        } else {
            if spec[i] == ch {
                return true;
            }
            i = i + 1;
        }
    }
    false
}

/// Whether `a` comes strictly before `b`.
fn text_less(a: &Vec<char>, b: &Vec<char>) -> (r: bool)
    ensures
        r == text_lt(a@, b@),
{
    let mut i: usize = 0;
    assert(a@.skip(0) =~= a@);
    assert(b@.skip(0) =~= b@);
    while i < a.len() && i < b.len() && a[i] == b[i]
        invariant
            i <= a.len(),
            i <= b.len(),
            text_lt(a@, b@) == text_lt(a@.skip(i as int), b@.skip(i as int)),
        decreases a.len() - i,
    {
        assert(a@.skip(i as int).skip(1) =~= a@.skip(i + 1));
        assert(b@.skip(i as int).skip(1) =~= b@.skip(i + 1));
        i = i + 1;
    }
    if i == a.len() {
        i < b.len()
    } else if i == b.len() {
        false
    } else {
        a[i] < b[i]
    }
}

proof fn lemma_insert_at(s: Seq<Seq<char>>, x: Seq<char>, k: int)
    requires
        0 <= k <= s.len(),
        forall|m: int| k <= m < s.len() ==> text_lt(x, #[trigger] s[m]),
        k == 0 || !text_lt(x, s[k - 1]),
    ensures
        insert_sorted(s, x) == s.take(k).push(x) + s.skip(k),
    decreases s.len(),
{
    if k == s.len() {
        if s.len() == 0 {
            assert(s.take(k).push(x) + s.skip(k) =~= seq![x]);
        } else {
            assert(s.last() == s[k - 1]);
            assert(s.take(k).push(x) + s.skip(k) =~= s.push(x));
        }
    } else {
        let d = s.drop_last();
        assert(text_lt(x, s[s.len() - 1]));
        assert forall|m: int| k <= m < d.len() implies text_lt(x, #[trigger] d[m]) by {
            assert(d[m] == s[m]);
        }
        if k > 0 {
            assert(d[k - 1] == s[k - 1]);
        }
        lemma_insert_at(d, x, k);
        assert((d.take(k).push(x) + d.skip(k)).push(s.last()) =~= s.take(k).push(x) + s.skip(k));
    }
}

/// Inserts `x` into the sorted list after every element not greater than it.
fn insert_in_order(sorted: &mut Vec<Vec<char>>, x: Vec<char>)
    ensures
        char_lists(final(sorted)@) == insert_sorted(char_lists(old(sorted)@), x@),
{
    let ghost s = char_lists(sorted@);
    let mut k: usize = sorted.len();
    assert(s.len() == sorted.len());
    while k > 0 && text_less(&x, &sorted[k - 1])
        invariant
            k <= sorted.len(),
            s == char_lists(sorted@),
            forall|m: int| k <= m < s.len() ==> text_lt(x@, #[trigger] s[m]),
        decreases k,
    {
        k = k - 1;
    }
    proof {
        lemma_insert_at(s, x@, k as int);
    }
    let ghost xv = x@;
    sorted.insert(k, x);
    assert(char_lists(sorted@) =~= s.take(k as int).push(xv) + s.skip(k as int));
}

/// Whether the texts are in non-decreasing order.
pub open spec fn is_sorted_texts(s: Seq<Seq<char>>) -> bool {
    forall|i: int, j: int| 0 <= i < j < s.len() ==> !text_lt(#[trigger] s[j], #[trigger] s[i])
}

/// No text comes before itself.
pub proof fn lemma_text_lt_irreflexive(a: Seq<char>)
    ensures
        !text_lt(a, a),
    decreases a.len(),
{
    if a.len() > 0 {
        lemma_text_lt_irreflexive(a.skip(1));
    }
}

/// The order on texts is transitive.
pub proof fn lemma_text_lt_transitive(a: Seq<char>, b: Seq<char>, c: Seq<char>)
    requires
        text_lt(a, b),
        text_lt(b, c),
    ensures
        text_lt(a, c),
    decreases a.len(),
{
    if a.len() > 0 && b.len() > 0 && c.len() > 0 && a[0] == b[0] && b[0] == c[0] {
        lemma_text_lt_transitive(a.skip(1), b.skip(1), c.skip(1));
    }
}

/// Of two different texts, one comes before the other.
pub proof fn lemma_text_lt_total(a: Seq<char>, b: Seq<char>)
    ensures
        a == b || text_lt(a, b) || text_lt(b, a),
    decreases a.len(),
{
    if a.len() == 0 && b.len() == 0 {
        assert(a =~= b);
    } else if a.len() > 0 && b.len() > 0 && a[0] == b[0] {
        lemma_text_lt_total(a.skip(1), b.skip(1));
        if a.skip(1) == b.skip(1) {
            assert(a.skip(1).len() == a.len() - 1);
            assert(b.skip(1).len() == b.len() - 1);
            assert(a.len() == b.len());
            assert(a =~= b) by {
                assert forall|k: int| 0 <= k < a.len() implies a[k] == b[k] by {
                    if k > 0 {
                        assert(a[k] == a.skip(1)[k - 1]);
                        assert(b[k] == b.skip(1)[k - 1]);
                    }
                }
            }
        }
    }
}

proof fn lemma_not_lt_chain(x: Seq<char>, y: Seq<char>, z: Seq<char>)
    requires
        !text_lt(x, y),
        !text_lt(y, z),
    ensures
        !text_lt(x, z),
{
    lemma_text_lt_total(x, y);
    lemma_text_lt_total(y, z);
    if text_lt(x, z) {
        if x == y {
        } else if y == z {
        } else {
            lemma_text_lt_transitive(z, y, x);
            lemma_text_lt_transitive(x, z, x);
            lemma_text_lt_irreflexive(x);
        }
    }
}

proof fn lemma_insert_sorted_props(s: Seq<Seq<char>>, x: Seq<char>)
    requires
        is_sorted_texts(s),
    ensures
        is_sorted_texts(insert_sorted(s, x)),
        insert_sorted(s, x).to_multiset() == s.to_multiset().insert(x),
    decreases s.len(),
{
    broadcast use vstd::seq_lib::to_multiset_build, vstd::seq_lib::to_multiset_contains;

    if s.len() == 0 {
        assert(seq![x] =~= s.push(x));
    } else if !text_lt(x, s.last()) {
        let r = s.push(x);
        assert forall|i: int, j: int| 0 <= i < j < r.len() implies !text_lt(#[trigger] r[j], #[trigger] r[i]) by {
            if j == s.len() {
                if i < s.len() - 1 {
                    assert(!text_lt(s[s.len() - 1], s[i]));
                    lemma_not_lt_chain(x, s[s.len() - 1], s[i]);
                }
            }
        }
    } else {
        let d = s.drop_last();
        let last = s.last();
        assert(is_sorted_texts(d)) by {
            assert forall|i: int, j: int| 0 <= i < j < d.len() implies !text_lt(#[trigger] d[j], #[trigger] d[i]) by {
                assert(d[i] == s[i] && d[j] == s[j]);
            }
        }
        lemma_insert_sorted_props(d, x);
        let q = insert_sorted(d, x);
        let r = q.push(last);
        assert(d.push(last) =~= s);
        assert forall|i: int, j: int| 0 <= i < j < r.len() implies !text_lt(#[trigger] r[j], #[trigger] r[i]) by {
            if j == q.len() {
                let e = q[i];
                assert(q.to_multiset().count(e) > 0) by {
                    assert(q.contains(e));
                }
                if e == x {
                    lemma_text_lt_total(last, x);
                    if text_lt(last, x) {
                        lemma_text_lt_transitive(x, last, x);
                        lemma_text_lt_irreflexive(x);
                    }
                } else {
                    assert(d.to_multiset().count(e) > 0);
                    assert(d.contains(e));
                    let m = choose|m: int| 0 <= m < d.len() && d[m] == e;
                    assert(s[m] == e);
                    assert(!text_lt(s[s.len() - 1], s[m]));
                }
            }
        }
    }
}

/// Sorting puts the texts in order and keeps each of them as often as it
/// occurs.
pub proof fn lemma_sort_texts_props(s: Seq<Seq<char>>)
    ensures
        is_sorted_texts(sort_texts(s)),
        sort_texts(s).to_multiset() == s.to_multiset(),
    decreases s.len(),
{
    broadcast use vstd::seq_lib::to_multiset_build;

    if s.len() > 0 {
        lemma_sort_texts_props(s.drop_last());
        lemma_insert_sorted_props(sort_texts(s.drop_last()), s.last());
        assert(s.drop_last().push(s.last()) =~= s);
    }
}

/// The listing of `MATCH` holds the matching files in lexicographic order,
/// each exactly as often as it is a file (once, since no file is created
/// twice).
pub proof fn law_listing_is_sorted_matches(files: Seq<Seq<char>>, expression: Seq<char>)
    ensures
        is_sorted_texts(sort_texts(matching_files(files, expression))),
        sort_texts(matching_files(files, expression)).to_multiset() == matching_files(
            files,
            expression,
        ).to_multiset(),
{
    lemma_sort_texts_props(matching_files(files, expression));
}

/// A pattern without `*`, `?` or `[` matches exactly the text it spells.
pub proof fn law_literal_pattern_matches_itself_only(pat: Seq<char>, text: Seq<char>)
    requires
        forall|k: int|
            0 <= k < pat.len() ==> #[trigger] pat[k] != '*' && pat[k] != '?' && pat[k] != '[',
    ensures
        glob_match(pat, text) <==> pat == text,
    decreases pat.len() + text.len(),
{
    if pat.len() == 0 {
        if text.len() == 0 {
            assert(pat =~= text);
        }
    } else if text.len() > 0 {
        let p1 = pat.skip(1);
        assert forall|k: int| 0 <= k < p1.len() implies #[trigger] p1[k] != '*' && p1[k] != '?' && p1[k] != '[' by {
            assert(p1[k] == pat[k + 1]);
        }
        assert(pat[0] != '*' && pat[0] != '?' && pat[0] != '[');
        law_literal_pattern_matches_itself_only(p1, text.skip(1));
        if pat == text {
            assert(pat.skip(1) == text.skip(1));
        }
        if pat[0] == text[0] && p1 == text.skip(1) {
            assert(pat =~= text) by {
                assert forall|k: int| 0 <= k < pat.len() implies pat[k] == text[k] by {
                    if k > 0 {
                        assert(pat[k] == p1[k - 1]);
                        assert(text[k] == text.skip(1)[k - 1]);
                    }
                }
            }
        }
    } else {
        assert(pat[0] != '*');
        assert(pat.len() != text.len());
    }
}

/// `*` alone matches every text that holds no `/`, and no other.
pub proof fn law_star_matches_names_without_slash(text: Seq<char>)
    ensures
        glob_match(seq!['*'], text) <==> !text.contains('/'),
    decreases text.len(),
{
    let star = seq!['*'];
    let e = Seq::<char>::empty();
    assert(star.skip(1) =~= e);
    assert(star[0] == '*');
    assert(glob_match(star, text) == (glob_match(e, text) || (text.len() > 0 && text[0] != '/'
        && glob_match(star, text.skip(1)))));
    assert(glob_match(e, text) == (text.len() == 0));
    if text.len() > 0 {
        let t1 = text.skip(1);
        law_star_matches_names_without_slash(t1);
        if t1.contains('/') {
            let m = choose|m: int| 0 <= m < t1.len() && t1[m] == '/';
            assert(text[m + 1] == '/');
        }
        if text.contains('/') && text[0] != '/' {
            let m = choose|m: int| 0 <= m < text.len() && text[m] == '/';
            assert(t1[m - 1] == '/');
        }
        if text[0] == '/' {
            assert(text.contains('/'));
        }
    }
}

proof fn lemma_filter_count(s: Seq<Seq<char>>, p: spec_fn(Seq<char>) -> bool, x: Seq<char>)
    ensures
        s.filter(p).to_multiset().count(x) == (if p(x) { s.to_multiset().count(x) } else { 0 }),
    decreases s.len(),
{
    broadcast use vstd::seq_lib::to_multiset_build, vstd::multiset::group_multiset_axioms;

    if s.len() == 0 {
        reveal(Seq::filter);
        assert(s.filter(p) =~= s);
        assert(s.to_multiset() =~= vstd::multiset::Multiset::empty()) by {
            broadcast use vstd::seq_lib::to_multiset_len, vstd::multiset::lemma_multiset_empty_len;

            assert(s.to_multiset().len() == 0);
        }
    } else {
        let d = s.drop_last();
        let l = s.last();
        lemma_filter_count(d, p, x);
        assert(d.push(l) =~= s);
        d.lemma_filter_push(l, p);
    }
}

proof fn lemma_sorted_unique(a: Seq<Seq<char>>, b: Seq<Seq<char>>)
    requires
        is_sorted_texts(a),
        is_sorted_texts(b),
        a.to_multiset() == b.to_multiset(),
    ensures
        a == b,
    decreases a.len(),
{
    broadcast use vstd::seq_lib::to_multiset_len, vstd::seq_lib::to_multiset_contains,
        vstd::seq_lib::to_multiset_remove;

    vstd::seq_lib::to_multiset_len(a);
    vstd::seq_lib::to_multiset_len(b);
    assert(a.len() == b.len());
    if a.len() > 0 {
        let n = a.len() - 1;
        let la = a.last();
        let lb = b.last();
        assert(b.contains(lb)) by {
            assert(b[n] == lb);
        }
        assert(a.to_multiset().count(lb) > 0);
        assert(a.contains(lb));
        let i = choose|i: int| 0 <= i < a.len() && a[i] == lb;
        if i < n {
            assert(!text_lt(a[n], a[i]));
        }
        assert(!text_lt(la, lb)) by {
            if i == n {
                lemma_text_lt_irreflexive(la);
            }
        }
        assert(a.contains(la)) by {
            assert(a[n] == la);
        }
        assert(b.to_multiset().count(la) > 0);
        assert(b.contains(la));
        let j = choose|j: int| 0 <= j < b.len() && b[j] == la;
        if j < n {
            assert(!text_lt(b[n], b[j]));
        }
        assert(!text_lt(lb, la)) by {
            if j == n {
                lemma_text_lt_irreflexive(lb);
            }
        }
        lemma_text_lt_total(la, lb);
        let da = a.drop_last();
        let db = b.drop_last();
        assert(a.remove(n) =~= da);
        assert(b.remove(n) =~= db);
        assert(da.to_multiset() == a.to_multiset().remove(la));
        assert(db.to_multiset() == b.to_multiset().remove(lb));
        assert(is_sorted_texts(da)) by {
            assert forall|x: int, y: int| 0 <= x < y < da.len() implies !text_lt(#[trigger] da[y], #[trigger] da[x]) by {
                assert(da[x] == a[x] && da[y] == a[y]);
            }
        }
        assert(is_sorted_texts(db)) by {
            assert forall|x: int, y: int| 0 <= x < y < db.len() implies !text_lt(#[trigger] db[y], #[trigger] db[x]) by {
                assert(db[x] == b[x] && db[y] == b[y]);
            }
        }
        lemma_sorted_unique(da, db);
        assert(a =~= da.push(la));
        assert(b =~= db.push(lb));
    }
}

/// What `MATCH` prints depends only on which files exist, not on the order
/// in which they were created.
pub proof fn law_listing_ignores_creation_order(f1: Seq<Seq<char>>, f2: Seq<Seq<char>>, expression: Seq<char>)
    requires
        f1.to_multiset() == f2.to_multiset(),
    ensures
        listing(f1, expression) == listing(f2, expression),
{
    broadcast use vstd::seq_lib::to_multiset_len;

    let p = |f: Seq<char>| name_matches(expression, f);
    let m1 = matching_files(f1, expression);
    let m2 = matching_files(f2, expression);
    assert(m1.to_multiset() =~= m2.to_multiset()) by {
        assert forall|x: Seq<char>| m1.to_multiset().count(x) == m2.to_multiset().count(x) by {
            lemma_filter_count(f1, p, x);
            lemma_filter_count(f2, p, x);
        }
    }
    vstd::seq_lib::to_multiset_len(m1);
    vstd::seq_lib::to_multiset_len(m2);
    assert(m1.len() == m2.len());
    lemma_sort_texts_props(m1);
    lemma_sort_texts_props(m2);
    lemma_sorted_unique(sort_texts(m1), sort_texts(m2));
}

/// A range class accepts every character between its bounds, ends
/// included: `[x-z]` matches any one-character name `c` with `x <= c <= z`.
pub proof fn law_range_class_accepts_between_bounds(x: char, z: char, c: char)
    requires
        x <= c <= z,
        x != '!',
        x != ']',
        z != ']',
    ensures
        class_matches(seq![x, '-', z], c),
        glob_match(seq!['[', x, '-', z, ']'], seq![c]),
{
    let spec = seq![x, '-', z];
    assert(class_items_match(spec, 0, c));
    let pat = seq!['[', x, '-', z, ']'];
    let text = seq![c];
    assert(pat[4] == ']' && pat[3] == z && pat[2] == '-' && pat[1] == x && pat[0] == '[');
    assert(index_of_from(pat, ']', 4) == 4);
    assert(index_of_from(pat, ']', 3) == 4);
    assert(index_of_from(pat, ']', 2) == 4);
    assert(index_of_from(pat, ']', 1) == 4);
    assert(index_of_from(pat, ']', 0) == 4);
    assert(pat.subrange(1, 4) =~= spec);
    let e = Seq::<char>::empty();
    assert(pat.skip(5) =~= e);
    assert(text.skip(1) =~= e);
    assert(glob_match(e, e));
    assert(glob_match(pat, text) == (class_matches(pat.subrange(1, 4), text[0]) && glob_match(
        pat.skip(5),
        text.skip(1),
    )));
}

} // verus!
