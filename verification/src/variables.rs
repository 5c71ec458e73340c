//! Shell variables: `SET`, `UNSET` and `$` expansion.

use vstd::prelude::*;
use vstd::hash_map::StringHashMap;
use crate::text::{
    index_of_from, lemma_index_of_bounds, lemma_index_shift,
    append_chars, byte_len, char_is_alphanumeric, chars_of, decimal, decimal_chars,
    is_alphanumeric, slice_of, string_of, utf8_len,
};

verus! {

/// The shell's variables, by name.
pub struct ShellVariable {
    pub record: StringHashMap<String>,
}

/// The variables as a map from names to values.
pub type Vars = Map<Seq<char>, Seq<char>>;

impl View for ShellVariable {
    type V = Vars;

    open spec fn view(&self) -> Vars {
        self.record@.map_values(|v: String| v@)
    }
}

/// The value of a variable, empty when it is unset.
pub open spec fn value_of(vars: Vars, name: Seq<char>) -> Seq<char> {
    if vars.contains_key(name) {
        vars[name]
    } else {
        Seq::empty()
    }
}

/// A character that may appear in a variable name after `$`.
pub open spec fn is_name_char(c: char) -> bool {
    char_is_alphanumeric(c) || c == '_'
}

/// The end of the variable name that starts at `from`: the first index at or
/// after it that holds no name character, or the length.
pub open spec fn name_end(s: Seq<char>, from: int) -> int
    decreases s.len() - from,
{
    if from < 0 || from >= s.len() {
        s.len() as int
    } else if !is_name_char(s[from]) {
        from
    } else {
        name_end(s, from + 1)
    }
}

/// The index of the first `:-` in `s` at or after `from`.
pub open spec fn default_sep_from(s: Seq<char>, from: int) -> Option<int>
    decreases s.len() - from,
{
    if from < 0 || from + 1 >= s.len() {
        None
    } else if s[from] == ':' && s[from + 1] == '-' {
        Some(from)
    } else {
        default_sep_from(s, from + 1)
    }
}

/// What `${expr}` stands for: `${#X}` is the byte length of X's value in
/// decimal; `${X:-d}` is X's value, or `d` when that is empty; `${X}` is X's
/// value. An unset variable has the empty value.
pub open spec fn brace_value(vars: Vars, expr: Seq<char>) -> Seq<char> {
    if expr.len() > 0 && expr[0] == '#' {
        decimal(utf8_len(value_of(vars, expr.skip(1))) as nat)
    } else {
        match default_sep_from(expr, 0) {
            Some(pos) => {
                let v = value_of(vars, expr.take(pos));
                if v.len() == 0 {
                    expr.skip(pos + 2)
                } else {
                    v
                }
            },
            None => value_of(vars, expr),
        }
    }
}

/// Puts text before an expansion result.
pub open spec fn text_with_prefix(p: Seq<char>, rest: Result<Seq<char>, Seq<char>>) -> Result<Seq<char>, Seq<char>> {
    match rest {
        Ok(r) => Ok(p + r),
        Err(e) => Err(e),
    }
}

/// `s` with its variables expanded: `${...}` (an error when the `}` is
/// missing) and `$NAME`; any other character, `$` included, stays.
pub open spec fn expand_vars(vars: Vars, s: Seq<char>) -> Result<Seq<char>, Seq<char>>
    decreases s.len(),
{
    if s.len() == 0 {
        Ok(Seq::empty())
    } else if s[0] == '$' && s.len() > 1 && s[1] == '{' {
        let k = index_of_from(s, '}', 2);
        if k >= s.len() {
            Err("ERR bad substitution: missing closing '}'"@)
        } else {
            proof {
                lemma_index_of_bounds(s, '}', 2);
            }
            text_with_prefix(brace_value(vars, s.subrange(2, k)), expand_vars(vars, s.skip(k + 1)))
        }
    } else if s[0] == '$' && s.len() > 1 && is_name_char(s[1]) {
        let k = name_end(s, 1);
        proof {
            lemma_name_end_bounds(s, 2);
        }
        text_with_prefix(value_of(vars, s.subrange(1, k)), expand_vars(vars, s.skip(k)))
    } else {
        text_with_prefix(seq![s[0]], expand_vars(vars, s.skip(1)))
    }
}

/// `s` without its first `n` characters (empty when it is shorter).
pub open spec fn drop_chars(s: Seq<char>, n: int) -> Seq<char> {
    if s.len() <= n {
        Seq::empty()
    } else {
        s.skip(n)
    }
}

/// What `EXPAND line` prints: the expansion of the line without its first
/// seven characters (the length of the `EXPAND ` command word).
pub open spec fn expand_line(vars: Vars, line: Seq<char>) -> Result<Seq<char>, Seq<char>> {
    match expand_vars(vars, line) {
        Ok(r) => Ok(drop_chars(r, 7)),
        Err(e) => Err(e),
    }
}

/// The variables after `SET name value`: a variable that is set becomes
/// unset, otherwise it gets the value.
pub open spec fn set_spec(vars: Vars, name: Seq<char>, value: Seq<char>) -> Vars {
    if vars.contains_key(name) {
        vars.remove(name)
    } else {
        vars.insert(name, value)
    }
}

/// A name ends inside the text or at its end, not before its start.
pub proof fn lemma_name_end_bounds(s: Seq<char>, from: int)
    requires
        0 <= from <= s.len(),
    ensures
        from <= name_end(s, from) <= s.len(),
    decreases s.len() - from,
{
    if from < s.len() && is_name_char(s[from]) {
        lemma_name_end_bounds(s, from + 1);
    }
}

proof fn lemma_text_prefix_assoc(a: Seq<char>, b: Seq<char>, r: Result<Seq<char>, Seq<char>>)
    ensures
        text_with_prefix(a, text_with_prefix(b, r)) == text_with_prefix(a + b, r),
{
    if let Ok(x) = r {
        assert(a + (b + x) =~= (a + b) + x);
    }
}

impl ShellVariable {
    /// No variables.
    pub fn new() -> (s: Self)
        ensures
            s@ == Map::<Seq<char>, Seq<char>>::empty(),
    {
        let s = ShellVariable { record: StringHashMap::new() };
        assert(s@ =~= Map::<Seq<char>, Seq<char>>::empty());
        s
    }

    /// `SET name value`: unsets `name` when it is set, sets it to `value`
    /// otherwise.
    pub fn set(&mut self, name: &str, value: &str)
        ensures
            final(self)@ == set_spec(old(self)@, name@, value@),
    {
        if self.record.contains_key(name) {
            self.record.remove(name);
            assert(self@ =~= old(self)@.remove(name@));
        } else {
            let k = crate::text::owned(name);
            let v = crate::text::owned(value);
            self.record.insert(k, v);
            assert(self@ =~= old(self)@.insert(name@, value@));
        }
    }

    /// `UNSET name`.
    pub fn unset(&mut self, name: &str)
        ensures
            final(self)@ == old(self)@.remove(name@),
    {
        self.record.remove(name);
        assert(self@ =~= old(self)@.remove(name@));
    }

    /// The value of the variable with the given name, empty when it is unset.
    fn lookup(&self, name: &Vec<char>) -> (r: Vec<char>)
        ensures
            r@ == value_of(self@, name@),
    {
        let key = string_of(name);
        match self.record.get(key.as_str()) {
            Some(v) => chars_of(v.as_str()),
            None => Vec::new(),
        }
    }

    /// The text that `${...}` stands for, and the index after the `}`; `s[start]`
    /// is the first character after `${`.
    fn expanded_braces(&self, s: &Vec<char>, start: usize) -> (r: Result<(Vec<char>, usize), &'static str>)
        requires
            2 <= start <= s.len(),
        ensures
            match r {
                Ok((v, next)) => {
                    let k = index_of_from(s@, '}', start as int);
                    &&& k < s.len()
                    &&& next == k + 1
                    &&& v@ == brace_value(self@, s@.subrange(start as int, k))
                },
                Err(e) => {
                    &&& index_of_from(s@, '}', start as int) >= s.len()
                    &&& e@ == "ERR bad substitution: missing closing '}'"@
                },
            },
    {
        let mut k = start;
        while k < s.len() && s[k] != '}'
            invariant
                start <= k <= s.len(),
                index_of_from(s@, '}', start as int) == index_of_from(s@, '}', k as int),
            decreases s.len() - k,
        {
            k = k + 1;
        }
        if k >= s.len() {
            return Err("ERR bad substitution: missing closing '}'");
        }
        let expr = slice_of(s, start, k);
        if expr.len() > 0 && expr[0] == '#' {
            let name = slice_of(&expr, 1, expr.len());
            assert(name@ =~= expr@.skip(1));
            let val = string_of(&self.lookup(&name));
            let n = byte_len(val.as_str());
            return Ok((decimal_chars(n), k + 1));
        }
        let mut pos: usize = 0;
        assert(expr@.len() == k - start);
        while expr.len() > 0 && pos < expr.len() - 1 && !(expr[pos] == ':' && expr[pos + 1] == '-')
            invariant
                pos <= expr.len(),
                default_sep_from(expr@, 0) == default_sep_from(expr@, pos as int),
            decreases expr.len() - pos,
        {
            pos = pos + 1;
        }
        if expr.len() > 0 && pos < expr.len() - 1 {
            let name = slice_of(&expr, 0, pos);
            let default = slice_of(&expr, pos + 2, expr.len());
            assert(name@ =~= expr@.take(pos as int));
            assert(default@ =~= expr@.skip(pos + 2));
            let val = self.lookup(&name);
            if val.len() == 0 {
                Ok((default, k + 1))
            } else {
                Ok((val, k + 1))
            }
        } else {
            Ok((self.lookup(&expr), k + 1))
        }
    }

    /// The value of the variable whose name starts at `start`, and the index
    /// after the name.
    fn expand_simple(&self, s: &Vec<char>, start: usize) -> (r: (Vec<char>, usize))
        requires
            start <= s.len(),
        ensures
            r.1 == name_end(s@, start as int),
            r.0@ == value_of(self@, s@.subrange(start as int, r.1 as int)),
    {
        let mut k = start;
        while k < s.len() && (is_alphanumeric(s[k]) || s[k] == '_')
            invariant
                start <= k <= s.len(),
                name_end(s@, start as int) == name_end(s@, k as int),
            decreases s.len() - k,
        {
            k = k + 1;
        }
        let name = slice_of(s, start, k);
        (self.lookup(&name), k)
    }

    /// `EXPAND line`: the line with its variables expanded, without the
    /// command word `EXPAND ` (its first seven characters).
    pub fn expand(&mut self, line: &str) -> (r: Result<String, &'static str>)
        ensures
            final(self)@ == old(self)@,
            match r {
                Ok(t) => expand_line(old(self)@, line@) == Ok::<Seq<char>, Seq<char>>(t@),
                Err(e) => expand_line(old(self)@, line@) == Err::<Seq<char>, Seq<char>>(e@),
            },
    {
        let s = chars_of(line);
        let ghost vars = self@;
        let mut result: Vec<char> = Vec::new();
        let mut i: usize = 0;
        assert(s@.skip(0) =~= s@);
        assert(text_with_prefix(result@, expand_vars(vars, s@)) == expand_vars(vars, s@)) by {
            if let Ok(x) = expand_vars(vars, s@) {
                assert(Seq::<char>::empty() + x =~= x);
            }
        }
        while i < s.len()
            invariant
                i <= s.len(),
                vars == self@,
                vars == old(self)@,
                s@ == line@,
                expand_vars(vars, s@) == text_with_prefix(result@, expand_vars(vars, s@.skip(i as int))),
            decreases s.len() - i,
        {
            let ghost rest = s@.skip(i as int);
            let ghost before = result@;
            let ch = s[i];
            if ch == '$' && i + 1 < s.len() && s[i + 1] == '{' {
                assert(rest[0] == '$' && rest.len() > 1 && rest[1] == '{');
                proof {
                    lemma_index_of_bounds(s@, '}', i + 2);
                    lemma_index_shift(s@, '}', i as int, i + 2);
                }
                match self.expanded_braces(&s, i + 2) {
                    Err(e) => {
                        assert(index_of_from(rest, '}', 2) >= rest.len());
                        assert(expand_vars(vars, rest) == Err::<Seq<char>, Seq<char>>(e@));
                        assert(expand_vars(vars, s@) == Err::<Seq<char>, Seq<char>>(e@));
                        assert(s@ == line@);
                        assert(expand_line(vars, line@) == Err::<Seq<char>, Seq<char>>(e@));
                        return Err(e);
                    },
                    Ok((v, next)) => {
                        assert(index_of_from(rest, '}', 2) == next - 1 - i);
                        assert(rest.subrange(2, next - 1 - i) =~= s@.subrange(i + 2, next - 1));
                        assert(expand_vars(vars, rest) == text_with_prefix(v@, expand_vars(vars, rest.skip(next - i))));
                        append_chars(&mut result, &v);
                        assert(rest.subrange(2, next - 1 - i) =~= s@.subrange(i + 2, next - 1));
                        assert(rest.skip(next - i) =~= s@.skip(next as int));
                        proof {
                            lemma_text_prefix_assoc(before, v@, expand_vars(vars, s@.skip(next as int)));
                        }
                        i = next;
                    },
                }
            } else if ch == '$' && i + 1 < s.len() && (is_alphanumeric(s[i + 1]) || s[i + 1] == '_') {
                assert(rest[0] == '$' && rest.len() > 1 && is_name_char(rest[1]));
                proof {
                    lemma_name_end_bounds(s@, i + 1);
                    lemma_name_end_bounds(s@, i + 2);
                    lemma_name_end_shift(s@, i as int, i + 1);
                }
                let (v, next) = self.expand_simple(&s, i + 1);
                assert(rest.subrange(1, next - i) =~= s@.subrange(i + 1, next as int));
                assert(rest.skip(next - i) =~= s@.skip(next as int));
                assert(name_end(rest, 1) == next - i);
                assert(expand_vars(vars, rest) == text_with_prefix(v@, expand_vars(vars, s@.skip(next as int))));
                append_chars(&mut result, &v);
                proof {
                    lemma_text_prefix_assoc(before, v@, expand_vars(vars, s@.skip(next as int)));
                }
                i = next;
            } else {
                result.push(ch);
                assert(rest.skip(1) =~= s@.skip(i + 1));
                assert(rest[0] == ch);
                assert(expand_vars(vars, rest) == text_with_prefix(seq![ch], expand_vars(vars, s@.skip(i + 1))));
                proof {
                    lemma_text_prefix_assoc(before, seq![ch], expand_vars(vars, s@.skip(i + 1)));
                    assert(before + seq![ch] =~= before.push(ch));
                }
                i = i + 1;
            }
        }
        assert(expand_vars(vars, s@.skip(i as int)) == Ok::<Seq<char>, Seq<char>>(Seq::empty()));
        assert(result@ + Seq::<char>::empty() =~= result@);
        let out = if result.len() <= 7 {
            Vec::new()
        } else {
            let t = slice_of(&result, 7, result.len());
            assert(t@ =~= result@.skip(7));
            t
        };
        assert(result.len() <= 7 ==> out@ =~= Seq::<char>::empty());
        Ok(string_of(&out))
    }
}

/// The end of a name in a suffix is the same place, shifted.
pub proof fn lemma_name_end_shift(s: Seq<char>, i: int, from: int)
    requires
        0 <= i <= from,
        i <= s.len(),
    ensures
        name_end(s.skip(i), from - i) == name_end(s, from) - i,
    decreases s.len() - from,
{
    if from < s.len() {
        assert(s.skip(i)[from - i] == s[from]);
    }
    if from < s.len() && is_name_char(s[from]) {
        lemma_name_end_shift(s, i, from + 1);
    }
}

/// Setting a variable that was unset, then setting it again, leaves the
/// variables as they were: the second `SET` unsets it.
pub proof fn law_set_twice_restores(vars: Vars, name: Seq<char>, v: Seq<char>, w: Seq<char>)
    requires
        !vars.contains_key(name),
    ensures
        set_spec(set_spec(vars, name, v), name, w) == vars,
{
    assert(set_spec(set_spec(vars, name, v), name, w) =~= vars);
}

proof fn lemma_no_dollar(vars: Vars, s: Seq<char>)
    requires
        !s.contains('$'),
    ensures
        expand_vars(vars, s) == Ok::<Seq<char>, Seq<char>>(s),
    decreases s.len(),
{
    if s.len() == 0 {
        assert(s =~= Seq::<char>::empty());
    } else {
        assert(s[0] != '$');
        let t = s.skip(1);
        assert(!t.contains('$')) by {
            if t.contains('$') {
                let m = choose|m: int| 0 <= m < t.len() && t[m] == '$';
                assert(s[m + 1] == '$');
            }
        }
        lemma_no_dollar(vars, t);
        assert(expand_vars(vars, s) == text_with_prefix(seq![s[0]], expand_vars(vars, t)));
        assert(seq![s[0]] + t =~= s);
    }
}

/// A line without `$` expands to itself (less the command word).
pub proof fn law_line_without_dollar_is_unchanged(vars: Vars, line: Seq<char>)
    requires
        !line.contains('$'),
    ensures
        expand_line(vars, line) == Ok::<Seq<char>, Seq<char>>(drop_chars(line, 7)),
{
    lemma_no_dollar(vars, line);
}

proof fn lemma_name_end_full(s: Seq<char>, from: int)
    requires
        0 <= from <= s.len(),
        forall|k: int| from <= k < s.len() ==> is_name_char(#[trigger] s[k]),
    ensures
        name_end(s, from) == s.len(),
    decreases s.len() - from,
{
    if from < s.len() {
        lemma_name_end_full(s, from + 1);
    }
}

proof fn lemma_no_default_sep(s: Seq<char>, from: int)
    requires
        0 <= from,
        !s.contains(':'),
    ensures
        default_sep_from(s, from) is None,
    decreases s.len() - from,
{
    if from + 1 < s.len() {
        assert(s[from] != ':');
        lemma_no_default_sep(s, from + 1);
    }
}

proof fn lemma_index_of_absent(s: Seq<char>, c: char, from: int)
    requires
        0 <= from <= s.len(),
        forall|k: int| from <= k < s.len() ==> #[trigger] s[k] != c,
    ensures
        index_of_from(s, c, from) == s.len(),
    decreases s.len() - from,
{
    if from < s.len() {
        lemma_index_of_absent(s, c, from + 1);
    }
}

/// For a variable name, `$NAME` and `${NAME}` expand to the same text: its
/// value, or nothing when it is unset.
pub proof fn law_braced_and_plain_names_agree(vars: Vars, name: Seq<char>)
    requires
        name.len() > 0,
        forall|k: int| 0 <= k < name.len() ==> is_name_char(#[trigger] name[k]),
        name[0] != '#',
        !name.contains(':'),
        !name.contains('{'),
        !name.contains('}'),
    ensures
        expand_vars(vars, seq!['$'] + name) == Ok::<Seq<char>, Seq<char>>(value_of(vars, name)),
        expand_vars(vars, seq!['$', '{'] + name + seq!['}']) == Ok::<Seq<char>, Seq<char>>(
            value_of(vars, name),
        ),
{
    let plain = seq!['$'] + name;
    assert forall|k: int| 1 <= k < plain.len() implies is_name_char(#[trigger] plain[k]) by {
        assert(plain[k] == name[k - 1]);
    }
    lemma_name_end_full(plain, 1);
    assert(plain[1] == name[0]);
    assert(plain.subrange(1, plain.len() as int) =~= name);
    assert(plain.skip(plain.len() as int) =~= Seq::<char>::empty());
    assert(value_of(vars, name) + Seq::<char>::empty() =~= value_of(vars, name));
    assert(plain[1] != '{') by {
        assert(name.contains(name[0]));
    }
    assert(expand_vars(vars, plain) == text_with_prefix(
        value_of(vars, plain.subrange(1, plain.len() as int)),
        expand_vars(vars, plain.skip(plain.len() as int)),
    ));
    assert(expand_vars(vars, Seq::<char>::empty()) == Ok::<Seq<char>, Seq<char>>(Seq::empty()));
    let braced = seq!['$', '{'] + name + seq!['}'];
    assert forall|k: int| 2 <= k < braced.len() - 1 implies #[trigger] braced[k] != '}' by {
        assert(braced[k] == name[k - 2]);
        assert(name.contains(name[k - 2]));
    }
    lemma_index_of_absent(braced.take(braced.len() - 1), '}', 2);
    assert(index_of_from(braced, '}', 2) == braced.len() - 1) by {
        lemma_index_prefix(braced, braced.len() - 1, 2);
    }
    assert(braced.subrange(2, braced.len() - 1) =~= name);
    assert(braced.skip(braced.len() as int) =~= Seq::<char>::empty());
    lemma_no_default_sep(name, 0);
    assert(name[0] == braced[2]);
    assert(braced[0] == '$' && braced[1] == '{');
    assert(brace_value(vars, name) == value_of(vars, name));
    assert(expand_vars(vars, braced) == text_with_prefix(
        brace_value(vars, braced.subrange(2, braced.len() - 1)),
        expand_vars(vars, braced.skip(braced.len() as int)),
    ));
}

/// Searching a text finds what searching the text cut at its first hit finds.
proof fn lemma_index_prefix(s: Seq<char>, n: int, from: int)
    requires
        0 <= from <= n < s.len(),
        s[n] == '}',
        index_of_from(s.take(n), '}', from) == n,
    ensures
        index_of_from(s, '}', from) == n,
    decreases n - from,
{
    if from < n {
        assert(s.take(n)[from] == s[from]);
        lemma_index_prefix(s, n, from + 1);
    }
}

/// `${#NAME}` expands to the full decimal notation of the byte length of
/// the variable's value (0 when it is unset).
pub proof fn law_length_expansion(vars: Vars, name: Seq<char>)
    requires
        !name.contains('}'),
    ensures
        expand_vars(vars, seq!['$', '{', '#'] + name + seq!['}']) == Ok::<Seq<char>, Seq<char>>(
            decimal(utf8_len(value_of(vars, name)) as nat),
        ),
{
    let s = seq!['$', '{', '#'] + name + seq!['}'];
    let n = s.len() - 1;
    assert forall|k: int| 2 <= k < n implies #[trigger] s[k] != '}' by {
        if k > 2 {
            assert(s[k] == name[k - 3]);
            assert(name.contains(name[k - 3]));
        }
    }
    lemma_index_of_absent(s.take(n), '}', 2);
    lemma_index_prefix(s, n, 2);
    let expr = s.subrange(2, n);
    assert(expr =~= seq!['#'] + name);
    assert(expr.skip(1) =~= name);
    assert(s.skip(n + 1) =~= Seq::<char>::empty());
    let d = decimal(utf8_len(value_of(vars, name)) as nat);
    assert(brace_value(vars, expr) == d);
    assert(expand_vars(vars, Seq::<char>::empty()) == Ok::<Seq<char>, Seq<char>>(Seq::empty()));
    assert(d + Seq::<char>::empty() =~= d);
    assert(expand_vars(vars, s) == text_with_prefix(brace_value(vars, expr), expand_vars(vars, s.skip(n + 1))));
}

/// The numeric value of a text of decimal digits.
pub open spec fn digits_value(s: Seq<char>) -> int
    decreases s.len(),
{
    if s.len() == 0 {
        0
    } else {
        digits_value(s.drop_last()) * 10 + (s.last() as int - '0' as int)
    }
}

proof fn lemma_digit_char_value(d: nat)
    requires
        d < 10,
    ensures
        crate::text::digit_char(d) as int - '0' as int == d,
        '0' <= crate::text::digit_char(d) <= '9',
{
    assert('0' as int == 48 && '1' as int == 49 && '2' as int == 50 && '3' as int == 51 && '4' as int
        == 52 && '5' as int == 53 && '6' as int == 54 && '7' as int == 55 && '8' as int == 56
        && '9' as int == 57);
}

/// `decimal(n)` is the decimal notation of `n`: digits only, no leading zero
/// (but for 0 itself), and worth `n`.
pub proof fn law_decimal_is_notation(n: nat)
    ensures
        forall|k: int| 0 <= k < decimal(n).len() ==> '0' <= #[trigger] decimal(n)[k] <= '9',
        decimal(n).len() > 0,
        decimal(n)[0] == '0' ==> n == 0,
        digits_value(decimal(n)) == n,
    decreases n,
{
    lemma_digit_char_value(n % 10);
    if n < 10 {
        assert(decimal(n) == seq![crate::text::digit_char(n)]);
        assert(decimal(n).drop_last() =~= Seq::<char>::empty());
        assert(n % 10 == n);
        assert(digits_value(decimal(n)) == digits_value(Seq::<char>::empty()) * 10 + (
        crate::text::digit_char(n) as int - '0' as int));
    } else {
        law_decimal_is_notation(n / 10);
        let p = decimal(n / 10);
        assert(decimal(n) == p.push(crate::text::digit_char(n % 10)));
        assert(decimal(n).drop_last() =~= p);
        assert(decimal(n)[0] == p[0]);
        assert(digits_value(decimal(n)) == digits_value(p) * 10 + (crate::text::digit_char(n % 10) as int
            - '0' as int));
        assert((n / 10) * 10 + n % 10 == n) by (nonlinear_arith);
    }
}

} // verus!
