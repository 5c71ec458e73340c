//! Command substitution: `$(...)`, `${NAME}` and `$NAME` in `EXPAND` lines.

use vstd::prelude::*;
use vstd::hash_map::StringHashMap;
use crate::text::{
    append_chars, byte_len, chars_of, decimal, decimal_chars, index_of_from,
    is_alphanumeric, is_text, lemma_index_of_bounds, lemma_index_shift, slice_of, string_of,
    text_to_uppercase, to_uppercase, trim, trim_end_char, trim_end_matches, trim_ws, utf8_len,
    trim_end_ws, trim_start_ws, is_white_space,
};
use crate::variables::{is_name_char, lemma_name_end_bounds, name_end, value_of, Vars};

verus! {

/// Variables for command substitution, by name.
pub struct CommandSubstitution {
    pub record: StringHashMap<String>,
}

impl View for CommandSubstitution {
    type V = Vars;

    open spec fn view(&self) -> Vars {
        self.record@.map_values(|v: String| v@)
    }
}

/// A line without its leading `EXPAND ` command word, if it has one.
pub open spec fn strip_expand_word(s: Seq<char>) -> Seq<char> {
    if s.len() >= 7 && s.take(7) == "EXPAND "@ {
        s.skip(7)
    } else {
        s
    }
}

/// The index of the `)` that closes a `$(` whose content starts at `i`,
/// with `depth` parentheses open; the length when it is missing.
pub open spec fn close_paren(s: Seq<char>, i: int, depth: int) -> int
    decreases s.len() - i,
{
    if i < 0 || i >= s.len() {
        s.len() as int
    } else if s[i] == '(' {
        close_paren(s, i + 1, depth + 1)
    } else if s[i] == ')' {
        if depth - 1 == 0 {
            i
        } else {
            close_paren(s, i + 1, depth - 1)
        }
    } else {
        close_paren(s, i + 1, depth)
    }
}

/// The closing parenthesis lies inside the text, or is its end.
pub proof fn lemma_close_paren_bounds(s: Seq<char>, i: int, depth: int)
    requires
        0 <= i,
    ensures
        (i <= close_paren(s, i, depth) <= s.len()) || (i > s.len() && close_paren(s, i, depth) == s.len()),
    decreases s.len() - i,
{
    if i < s.len() {
        if s[i] == '(' {
            lemma_close_paren_bounds(s, i + 1, depth + 1);
        } else if s[i] == ')' {
            if depth - 1 != 0 {
                lemma_close_paren_bounds(s, i + 1, depth - 1);
            }
        } else {
            lemma_close_paren_bounds(s, i + 1, depth);
        }
    }
}

/// Searching a suffix finds the same parenthesis, shifted.
proof fn lemma_close_paren_shift(s: Seq<char>, k: int, i: int, depth: int)
    requires
        0 <= k <= i,
        k <= s.len(),
    ensures
        close_paren(s.skip(k), i - k, depth) == close_paren(s, i, depth) - k,
    decreases s.len() - i,
{
    if i < s.len() {
        assert(s.skip(k)[i - k] == s[i]);
        if s[i] == '(' {
            lemma_close_paren_shift(s, k, i + 1, depth + 1);
        } else if s[i] == ')' {
            if depth - 1 != 0 {
                lemma_close_paren_shift(s, k, i + 1, depth - 1);
            }
        } else {
            lemma_close_paren_shift(s, k, i + 1, depth);
        }
    }
}

/// Puts text before an optional result.
pub open spec fn opt_with_prefix(p: Seq<char>, rest: Option<Seq<char>>) -> Option<Seq<char>> {
    match rest {
        Some(r) => Some(p + r),
        None => None,
    }
}

/// The text of a scanned line: `$(cmd)` becomes the output of the expanded
/// command without trailing newlines, `${NAME}` and `$NAME` the variable's
/// value; everything else stays. `fuel` bounds how deep `cat $...` may
/// expand again; `None` when it runs out.
pub open spec fn cs_scan(vars: Vars, s: Seq<char>, fuel: nat) -> Option<Seq<char>>
    decreases fuel, s.len(), 1nat,
{
    if s.len() == 0 {
        Some(Seq::empty())
    } else if s[0] == '$' && s.len() > 1 && s[1] == '(' {
        let k = close_paren(s, 2, 1);
        let next = if k < s.len() { k + 1 } else { k };
        proof {
            lemma_close_paren_bounds(s, 2, 1);
        }
        match cs_expand(vars, s.subrange(2, k), fuel) {
            None => None,
            Some(e) => match run_command(vars, e, fuel) {
                None => None,
                Some(out) => opt_with_prefix(trim_end_char(out, '\n'), cs_scan(vars, s.skip(next), fuel)),
            },
        }
    } else if s[0] == '$' && s.len() > 1 && s[1] == '{' {
        let k = index_of_from(s, '}', 2);
        let next = if k < s.len() { k + 1 } else { k };
        proof {
            lemma_index_of_bounds(s, '}', 2);
        }
        opt_with_prefix(value_of(vars, s.subrange(2, k)), cs_scan(vars, s.skip(next), fuel))
    } else if s[0] == '$' && s.len() > 1 && is_name_char(s[1]) {
        let k = name_end(s, 1);
        proof {
            lemma_name_end_bounds(s, 2);
        }
        opt_with_prefix(value_of(vars, s.subrange(1, k)), cs_scan(vars, s.skip(k), fuel))
    } else {
        opt_with_prefix(seq![s[0]], cs_scan(vars, s.skip(1), fuel))
    }
}

/// A line expanded: without its `EXPAND ` word, then scanned.
pub open spec fn cs_expand(vars: Vars, line: Seq<char>, fuel: nat) -> Option<Seq<char>>
    decreases fuel, line.len(), 2nat,
{
    cs_scan(vars, strip_expand_word(line), fuel)
}

/// The first word of a command and the rest after the first space.
pub open spec fn command_word(t: Seq<char>) -> Seq<char> {
    t.take(index_of_from(t, ' ', 0))
}

/// The arguments of a command: what follows its first space.
pub open spec fn command_args(t: Seq<char>) -> Seq<char> {
    let sp = index_of_from(t, ' ', 0);
    if sp < t.len() {
        t.skip(sp + 1)
    } else {
        Seq::empty()
    }
}

/// The output of a substituted command (after trimming): `echo` prints its
/// arguments, `upper` them in upper case, `len` their byte length, `cat $...`
/// their expansion and `cat NAME` the variable's value; anything else prints
/// nothing.
pub open spec fn run_command(vars: Vars, cmd: Seq<char>, fuel: nat) -> Option<Seq<char>>
    decreases fuel, 0nat, 0nat,
{
    let t = trim_ws(cmd);
    if t.len() == 0 {
        Some(Seq::empty())
    } else {
        let name = command_word(t);
        let args = command_args(t);
        if name == "echo"@ {
            Some(args)
        } else if name == "upper"@ {
            Some(text_to_uppercase(args))
        } else if name == "len"@ {
            Some(decimal(utf8_len(args) as nat))
        } else if name == "cat"@ {
            if args.len() > 0 && args[0] == '$' {
                if fuel == 0 {
                    None
                } else {
                    cs_expand(vars, args, (fuel - 1) as nat)
                }
            } else {
                Some(value_of(vars, args))
            }
        } else {
            Some(Seq::empty())
        }
    }
}

/// The expansion of a line, given as much depth as the machine allows.
pub open spec fn expansion(vars: Vars, line: Seq<char>) -> Option<Seq<char>> {
    cs_expand(vars, line, usize::MAX as nat)
}

/// The view of an optional character vector.
pub open spec fn opt_chars(r: Option<Vec<char>>) -> Option<Seq<char>> {
    match r {
        Some(v) => Some(v@),
        None => None,
    }
}

impl CommandSubstitution {
    /// No variables.
    pub fn new() -> (s: Self)
        ensures
            s@ == Map::<Seq<char>, Seq<char>>::empty(),
    {
        let s = CommandSubstitution { record: StringHashMap::new() };
        assert(s@ =~= Map::<Seq<char>, Seq<char>>::empty());
        s
    }

    /// `SET name value`: sets (or replaces) a variable.
    pub fn create(&mut self, var_name: &str, var_value: &str)
        ensures
            final(self)@ == old(self)@.insert(var_name@, var_value@),
    {
        self.record.insert(crate::text::owned(var_name), crate::text::owned(var_value));
        assert(self@ =~= old(self)@.insert(var_name@, var_value@));
    }

    /// The value of a variable, empty when it is unset.
    fn lookup(&self, name: &Vec<char>) -> (r: Vec<char>)
        ensures
            r@ == value_of(self@, name@),
    {
        let key = string_of(name);
        match self.record.get(key.as_str()) {
            Some(v) => chars_of(v.as_str()),
            None => Vec::new(),
        }
    }

    /// Expands a line, with at most `fuel` nested `cat $...` expansions.
    fn expand_fuel(&self, line: &Vec<char>, fuel: usize) -> (r: Option<Vec<char>>)
        ensures
            opt_chars(r) == cs_expand(self@, line@, fuel as nat),
        decreases fuel, line@.len(), 2nat,
    {
        let input = if line.len() >= 7 && is_text(&slice_of(line, 0, 7), "EXPAND ") {
            assert(line@.subrange(0, 7) =~= line@.take(7));
            let rest = slice_of(line, 7, line.len());
            assert(rest@ =~= line@.skip(7));
            rest
        } else {
            proof {
                if line@.len() >= 7 {
                    assert(line@.subrange(0, 7) =~= line@.take(7));
                }
            }
            slice_of(line, 0, line.len())
        };
        assert(line@.subrange(0, line@.len() as int) =~= line@);
        self.scan(&input, fuel)
    }

    /// Scans an expanded line, with at most `fuel` nested `cat $...`
    /// expansions.
    fn scan(&self, s: &Vec<char>, fuel: usize) -> (r: Option<Vec<char>>)
        ensures
            opt_chars(r) == cs_scan(self@, s@, fuel as nat),
        decreases fuel, s@.len(), 1nat,
    {
        let ghost vars = self@;
        let mut result: Vec<char> = Vec::new();
        let mut i: usize = 0;
        assert(s@.skip(0) =~= s@);
        assert(opt_with_prefix(result@, cs_scan(vars, s@, fuel as nat)) == cs_scan(vars, s@, fuel as nat)) by {
            if let Some(x) = cs_scan(vars, s@, fuel as nat) {
                assert(Seq::<char>::empty() + x =~= x);
            }
        }
        while i < s.len()
            invariant
                i <= s.len(),
                vars == self@,
                cs_scan(vars, s@, fuel as nat) == opt_with_prefix(result@, cs_scan(vars, s@.skip(i as int), fuel as nat)),
            decreases s.len() - i,
        {
            let ghost rest = s@.skip(i as int);
            let ghost before = result@;
            assert(rest.len() == s.len() - i);
            assert(rest[0] == s@[i as int]);
            if s[i] == '$' && i + 1 < s.len() && s[i + 1] == '(' {
                assert(rest[1] == s@[i + 1]);
                let mut k = i + 2;
                let mut depth: usize = 1;
                while k < s.len() && depth > 0
                    invariant
                        i + 2 <= k <= s.len(),
                        1 <= depth || k < s.len(),
                        depth <= k - i - 1,
                        close_paren(s@, i + 2, 1) == (if depth > 0 { close_paren(s@, k as int, depth as int) } else { k as int }),
                    decreases s.len() - k + (if depth > 0 { 1int } else { 0int }),
                {
                    if s[k] == '(' {
                        depth = depth + 1;
                    } else if s[k] == ')' {
                        depth = depth - 1;
                    }
                    if depth > 0 {
                        k = k + 1;
                    }
                }
                proof {
                    lemma_close_paren_shift(s@, i as int, i + 2, 1);
                    lemma_close_paren_bounds(s@, i + 2, 1);
                }
                let inner = slice_of(s, i + 2, k);
                assert(rest.subrange(2, k - i) =~= inner@);
                let next = if k < s.len() { k + 1 } else { k };
                assert(rest.skip(next - i) =~= s@.skip(next as int));
                assert(inner@.len() < s@.len());
                let e = match self.expand_fuel(&inner, fuel) {
                    None => {
                        return None;
                    },
                    Some(e) => e,
                };
                let out = match self.execute_cmd(&e, fuel) {
                    None => {
                        return None;
                    },
                    Some(o) => o,
                };
                let trimmed = trim_end_matches(&out, '\n');
                append_chars(&mut result, &trimmed);
                proof {
                    lemma_opt_prefix_assoc(before, trimmed@, cs_scan(vars, s@.skip(next as int), fuel as nat));
                }
                i = next;
            } else if s[i] == '$' && i + 1 < s.len() && s[i + 1] == '{' {
                assert(rest[1] == s@[i + 1]);
                let mut k = i + 2;
                while k < s.len() && s[k] != '}'
                    invariant
                        i + 2 <= k <= s.len(),
                        index_of_from(s@, '}', i + 2) == index_of_from(s@, '}', k as int),
                    decreases s.len() - k,
                {
                    k = k + 1;
                }
                proof {
                    lemma_index_shift(s@, '}', i as int, i + 2);
                }
                let name = slice_of(s, i + 2, k);
                assert(rest.subrange(2, k - i) =~= name@);
                let next = if k < s.len() { k + 1 } else { k };
                assert(rest.skip(next - i) =~= s@.skip(next as int));
                let v = self.lookup(&name);
                append_chars(&mut result, &v);
                proof {
                    lemma_opt_prefix_assoc(before, v@, cs_scan(vars, s@.skip(next as int), fuel as nat));
                }
                i = next;
            } else if s[i] == '$' && i + 1 < s.len() && (is_alphanumeric(s[i + 1]) || s[i + 1] == '_') {
                assert(rest[1] == s@[i + 1]);
                let mut k = i + 1;
                while k < s.len() && (is_alphanumeric(s[k]) || s[k] == '_')
                    invariant
                        i + 1 <= k <= s.len(),
                        name_end(s@, i + 1) == name_end(s@, k as int),
                    decreases s.len() - k,
                {
                    k = k + 1;
                }
                proof {
                    crate::variables::lemma_name_end_shift(s@, i as int, i + 1);
                }
                let name = slice_of(s, i + 1, k);
                assert(rest.subrange(1, k - i) =~= name@);
                assert(rest.skip(k - i) =~= s@.skip(k as int));
                let v = self.lookup(&name);
                append_chars(&mut result, &v);
                proof {
                    lemma_opt_prefix_assoc(before, v@, cs_scan(vars, s@.skip(k as int), fuel as nat));
                }
                i = k;
            } else {
                result.push(s[i]);
                assert(rest.skip(1) =~= s@.skip(i + 1));
                proof {
                    lemma_opt_prefix_assoc(before, seq![s@[i as int]], cs_scan(vars, s@.skip(i + 1), fuel as nat));
                    assert(before + seq![s@[i as int]] =~= before.push(s@[i as int]));
                }
                i = i + 1;
            }
        }
        assert(s@.skip(i as int) =~= Seq::<char>::empty());
        assert(result@ + Seq::<char>::empty() =~= result@);
        Some(result)
    }

    /// Runs a substituted command, with at most `fuel` nested `cat $...`
    /// expansions.
    fn execute_cmd(&self, cmd: &Vec<char>, fuel: usize) -> (r: Option<Vec<char>>)
        ensures
            opt_chars(r) == run_command(self@, cmd@, fuel as nat),
        decreases fuel, 0nat, 0nat,
    {
        let t = trim(cmd);
        if t.len() == 0 {
            return Some(Vec::new());
        }
        let mut sp: usize = 0;
        assert(t@.skip(0) =~= t@);
        while sp < t.len() && t[sp] != ' '
            invariant
                sp <= t.len(),
                index_of_from(t@, ' ', 0) == index_of_from(t@, ' ', sp as int),
            decreases t.len() - sp,
        {
            sp = sp + 1;
        }
        let name = slice_of(&t, 0, sp);
        assert(name@ =~= command_word(t@));
        let args = if sp < t.len() {
            let a = slice_of(&t, sp + 1, t.len());
            assert(a@ =~= t@.skip(sp + 1));
            a
        } else {
            Vec::new()
        };
        assert(args@ =~= command_args(t@));
        if is_text(&name, "echo") {
            Some(args)
        } else if is_text(&name, "upper") {
            let a = string_of(&args);
            let u = to_uppercase(a.as_str());
            Some(chars_of(u.as_str()))
        } else if is_text(&name, "len") {
            let a = string_of(&args);
            let n = byte_len(a.as_str());
            Some(decimal_chars(n))
        } else if is_text(&name, "cat") {
            if args.len() > 0 && args[0] == '$' {
                if fuel == 0 {
                    None
                } else {
                    self.expand_fuel(&args, fuel - 1)
                }
            } else {
                Some(self.lookup(&args))
            }
        } else {
            Some(Vec::new())
        }
    }

    /// `EXPAND line` with at most `max_depth` nested `cat $...` expansions:
    /// `None` when the line needs more.
    pub fn expand_bounded(&self, line: &str, max_depth: usize) -> (r: Option<String>)
        ensures
            match r {
                Some(t) => cs_expand(self@, line@, max_depth as nat) == Some(t@),
                None => cs_expand(self@, line@, max_depth as nat) is None,
            },
    {
        let l = chars_of(line);
        match self.expand_fuel(&l, max_depth) {
            Some(v) => Some(string_of(&v)),
            None => None,
        }
    }

    /// `EXPAND line`: the line with `$(...)`, `${NAME}` and `$NAME` expanded,
    /// without its `EXPAND ` word. It needs `cat $...` commands to stop
    /// expanding within the machine's depth.
    pub fn expand(&self, line: &str) -> (r: String)
        requires
            expansion(self@, line@) is Some,
        ensures
            expansion(self@, line@) == Some(r@),
    {
        let l = chars_of(line);
        match self.expand_fuel(&l, usize::MAX) {
            Some(v) => string_of(&v),
            None => String::new(),
        }
    }
}

proof fn lemma_opt_prefix_assoc(a: Seq<char>, b: Seq<char>, r: Option<Seq<char>>)
    ensures
        opt_with_prefix(a, opt_with_prefix(b, r)) == opt_with_prefix(a + b, r),
{
    if let Some(x) = r {
        assert(a + (b + x) =~= (a + b) + x);
    }
}

proof fn lemma_scan_fuel(vars: Vars, s: Seq<char>, f1: nat, f2: nat)
    requires
        f1 <= f2,
        cs_scan(vars, s, f1) is Some,
    ensures
        cs_scan(vars, s, f2) == cs_scan(vars, s, f1),
    decreases f1, s.len(), 1nat,
{
    if s.len() == 0 {
    } else if s[0] == '$' && s.len() > 1 && s[1] == '(' {
        let k = close_paren(s, 2, 1);
        let next = if k < s.len() { k + 1 } else { k };
        lemma_close_paren_bounds(s, 2, 1);
        let inner = s.subrange(2, k);
        lemma_expand_fuel(vars, inner, f1, f2);
        let e = cs_expand(vars, inner, f1)->Some_0;
        lemma_run_fuel(vars, e, f1, f2);
        lemma_scan_fuel(vars, s.skip(next), f1, f2);
    } else if s[0] == '$' && s.len() > 1 && s[1] == '{' {
        let k = index_of_from(s, '}', 2);
        let next = if k < s.len() { k + 1 } else { k };
        lemma_index_of_bounds(s, '}', 2);
        lemma_scan_fuel(vars, s.skip(next), f1, f2);
    } else if s[0] == '$' && s.len() > 1 && is_name_char(s[1]) {
        lemma_name_end_bounds(s, 2);
        lemma_scan_fuel(vars, s.skip(name_end(s, 1)), f1, f2);
    } else {
        lemma_scan_fuel(vars, s.skip(1), f1, f2);
    }
}

proof fn lemma_expand_fuel(vars: Vars, line: Seq<char>, f1: nat, f2: nat)
    requires
        f1 <= f2,
        cs_expand(vars, line, f1) is Some,
    ensures
        cs_expand(vars, line, f2) == cs_expand(vars, line, f1),
    decreases f1, line.len(), 2nat,
{
    lemma_scan_fuel(vars, strip_expand_word(line), f1, f2);
}

proof fn lemma_run_fuel(vars: Vars, cmd: Seq<char>, f1: nat, f2: nat)
    requires
        f1 <= f2,
        run_command(vars, cmd, f1) is Some,
    ensures
        run_command(vars, cmd, f2) == run_command(vars, cmd, f1),
    decreases f1, 0nat, 0nat,
{
    let t = trim_ws(cmd);
    if t.len() > 0 {
        let args = command_args(t);
        if command_word(t) == "cat"@ && args.len() > 0 && args[0] == '$' && f1 > 0 {
            reveal_strlit("cat");
            reveal_strlit("echo");
            reveal_strlit("upper");
            reveal_strlit("len");
            assert("cat"@[0] != "echo"@[0] && "cat"@[0] != "upper"@[0] && "cat"@[0] != "len"@[0]);
            lemma_expand_fuel(vars, args, (f1 - 1) as nat, (f2 - 1) as nat);
        }
    }
}

/// Once a line's expansion finishes within some depth of nested `cat $...`
/// expansions, allowing more depth gives the same text: the expansion does
/// not depend on the bound.
pub proof fn law_expansion_is_independent_of_depth(vars: Vars, line: Seq<char>, d1: nat, d2: nat)
    requires
        d1 <= d2,
        cs_expand(vars, line, d1) is Some,
    ensures
        cs_expand(vars, line, d2) == cs_expand(vars, line, d1),
{
    lemma_expand_fuel(vars, line, d1, d2);
}

proof fn lemma_scan_no_dollar(vars: Vars, s: Seq<char>, fuel: nat)
    requires
        !s.contains('$'),
    ensures
        cs_scan(vars, s, fuel) == Some(s),
    decreases s.len(),
{
    if s.len() == 0 {
        assert(s =~= Seq::<char>::empty());
    } else {
        assert(s[0] != '$');
        let t = s.skip(1);
        assert(!t.contains('$')) by {
            if t.contains('$') {
                let m = choose|m: int| 0 <= m < t.len() && t[m] == '$';
                assert(s[m + 1] == '$');
            }
        }
        lemma_scan_no_dollar(vars, t, fuel);
        assert(cs_scan(vars, s, fuel) == opt_with_prefix(seq![s[0]], cs_scan(vars, t, fuel)));
        assert(seq![s[0]] + t =~= s);
    }
}

/// A line without `$` expands to itself, less its `EXPAND ` word, whatever
/// the variables and the depth bound.
pub proof fn law_line_without_dollar_expands_to_itself(vars: Vars, line: Seq<char>, depth: nat)
    requires
        !line.contains('$'),
    ensures
        cs_expand(vars, line, depth) == Some(strip_expand_word(line)),
{
    let s = strip_expand_word(line);
    assert(!s.contains('$')) by {
        if s.contains('$') && s != line {
            let m = choose|m: int| 0 <= m < s.len() && s[m] == '$';
            assert(line[m + 7] == '$');
        }
    }
    lemma_scan_no_dollar(vars, s, depth);
}

proof fn lemma_trim_end_concat(p: Seq<char>, a: Seq<char>)
    ensures
        trim_end_ws(p + a) == (if trim_end_ws(a).len() > 0 {
            p + trim_end_ws(a)
        } else {
            trim_end_ws(p)
        }),
    decreases a.len(),
{
    if a.len() == 0 {
        assert(p + a =~= p);
    } else {
        assert((p + a).last() == a.last());
        if is_white_space(a.last()) {
            assert((p + a).drop_last() =~= p + a.drop_last());
            lemma_trim_end_concat(p, a.drop_last());
        }
    }
}

/// `echo` prints all of its arguments, everything after `echo `, without
/// trailing blanks (the command is trimmed before it runs).
pub proof fn law_echo_prints_its_arguments(vars: Vars, a: Seq<char>, fuel: nat)
    requires
        a.len() == 0 || !is_white_space(a[0]),
    ensures
        run_command(vars, "echo "@ + a, fuel) == Some(trim_end_ws(a)),
{
    reveal_strlit("echo ");
    reveal_strlit("echo");
    let c = "echo "@ + a;
    assert(c[0] == 'e');
    assert(trim_start_ws(c) == c);
    let p = "echo "@;
    assert(p.drop_last() =~= "echo"@);
    assert(trim_end_ws(p) == trim_end_ws("echo"@));
    assert("echo"@.last() == 'o');
    assert(trim_end_ws("echo"@) == "echo"@);
    lemma_trim_end_concat(p, a);
    let ta = trim_end_ws(a);
    let t = trim_ws(c);
    assert(t == trim_end_ws(c));
    if ta.len() > 0 {
        assert(t == p + ta);
        assert(t[4] == ' ');
        assert(index_of_from(t, ' ', 4) == 4);
    } else {
        assert(t == "echo"@);
        assert(index_of_from(t, ' ', 4) == 4);
    }
    assert(index_of_from(t, ' ', 3) == 4);
    assert(index_of_from(t, ' ', 2) == 4);
    assert(index_of_from(t, ' ', 1) == 4);
    assert(index_of_from(t, ' ', 0) == 4);
    assert(command_word(t) =~= "echo"@);
    assert(command_args(t) =~= ta);
}

proof fn lemma_trim_end_last(x: Seq<char>)
    ensures
        trim_end_ws(x).len() > 0 ==> !is_white_space(trim_end_ws(x).last()),
    decreases x.len(),
{
    if x.len() > 0 && is_white_space(x.last()) {
        lemma_trim_end_last(x.drop_last());
    }
}

proof fn lemma_close_plain(s: Seq<char>, j: int, n: int)
    requires
        0 <= j <= n < s.len(),
        s[n] == ')',
        forall|m: int| j <= m < n ==> #[trigger] s[m] != '(' && s[m] != ')',
    ensures
        close_paren(s, j, 1) == n,
    decreases n - j,
{
    if j < n {
        assert(s[j] != '(' && s[j] != ')');
        lemma_close_plain(s, j + 1, n);
    }
}

/// `EXPAND $(echo ARGS)` prints all of `ARGS`, without trailing blanks, for
/// arguments that hold no `$` or parentheses and do not start with a blank.
pub proof fn law_echo_substitution(vars: Vars, a: Seq<char>, fuel: nat)
    requires
        a.len() == 0 || !is_white_space(a[0]),
        !a.contains('$'),
        !a.contains('('),
        !a.contains(')'),
    ensures
        cs_expand(vars, "EXPAND $(echo "@ + a + ")"@, fuel) == Some(trim_end_ws(a)),
{
    reveal_strlit("EXPAND $(echo ");
    reveal_strlit(")");
    reveal_strlit("EXPAND ");
    reveal_strlit("echo ");
    let line = "EXPAND $(echo "@ + a + ")"@;
    assert(line.take(7) =~= "EXPAND "@);
    let s = line.skip(7);
    assert(strip_expand_word(line) == s);
    let n = s.len() - 1;
    let inner = "echo "@ + a;
    assert(s =~= seq!['$', '('] + inner + seq![')']);
    assert forall|m: int| 2 <= m < n implies #[trigger] s[m] != '(' && s[m] != ')' by {
        if m >= 7 {
            assert(s[m] == a[m - 7]);
            assert(a.contains(a[m - 7]));
        }
    }
    lemma_close_plain(s, 2, n);
    assert(s.subrange(2, n) =~= inner);
    assert(s.skip(n + 1) =~= Seq::<char>::empty());
    assert(!inner.contains('$')) by {
        if inner.contains('$') {
            let m = choose|m: int| 0 <= m < inner.len() && inner[m] == '$';
            if m >= 5 {
                assert(a[m - 5] == '$');
                assert(a.contains(a[m - 5]));
            }
        }
    }
    if inner.len() >= 7 {
        assert(inner.take(7)[0] != "EXPAND "@[0]);
    }
    assert(strip_expand_word(inner) == inner);
    lemma_scan_no_dollar(vars, inner, fuel);
    law_echo_prints_its_arguments(vars, a, fuel);
    let ta = trim_end_ws(a);
    lemma_trim_end_last(a);
    assert(trim_end_char(ta, '\n') == ta);
    assert(cs_scan(vars, Seq::<char>::empty(), fuel) == Some(Seq::<char>::empty()));
    assert(ta + Seq::<char>::empty() =~= ta);
    assert(s[0] == '$' && s[1] == '(' && s.len() > 1);
    assert(cs_expand(vars, s.subrange(2, n), fuel) == Some(inner));
    assert(run_command(vars, inner, fuel) == Some(ta));
    assert(cs_scan(vars, s, fuel) == opt_with_prefix(trim_end_char(ta, '\n'), cs_scan(vars, s.skip(n + 1), fuel)));
}

} // verus!
