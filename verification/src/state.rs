//! The shell's working directory and `cd`.

use vstd::prelude::*;
use crate::text::{
    char_lists, chars_lit, chars_of, is_text, join, join_chars, append_chars, owned, slice_of,
    split_chars, split_on, string_of, lemma_split_flatten,
};

verus! {

/// The directory a new shell starts in, and the one `cd` goes to by default.
pub const INITIAL_PWD: &'static str = "/home/user";

/// The working directory and the one before the last `cd`.
#[derive(Debug)]
pub struct ShellState {
    pub pwd: String,
    pub oldpwd: Option<String>,
}

/// The working directory and the previous one, as texts.
pub type StateView = (Seq<char>, Option<Seq<char>>);

impl View for ShellState {
    type V = StateView;

    open spec fn view(&self) -> StateView {
        (
            self.pwd@,
            match self.oldpwd {
                Some(o) => Some(o@),
                None => None,
            },
        )
    }
}

/// The home directory, as a text.
pub open spec fn initial_pwd() -> Seq<char> {
    INITIAL_PWD@
}

/// A path made absolute: relative paths are taken from `pwd`.
pub open spec fn absolute_path(pwd: Seq<char>, raw: Seq<char>) -> Seq<char> {
    if raw.len() > 0 && raw[0] == '/' {
        raw
    } else {
        pwd + "/"@ + raw
    }
}

/// The directories that a list of path components leads to: empty
/// components and `.` stay where they are, `..` goes up one level (not above
/// the root), any other name goes down into it.
pub open spec fn normalize(parts: Seq<Seq<char>>) -> Seq<Seq<char>>
    decreases parts.len(),
{
    if parts.len() == 0 {
        Seq::empty()
    } else {
        let p = normalize(parts.drop_last());
        let x = parts.last();
        if x.len() == 0 || x == "."@ {
            p
        } else if x == ".."@ {
            if p.len() > 0 {
                p.drop_last()
            } else {
                p
            }
        } else {
            p.push(x)
        }
    }
}

/// The canonical absolute path that `raw` names when the working directory
/// is `pwd`.
pub open spec fn resolve(pwd: Seq<char>, raw: Seq<char>) -> Seq<char> {
    "/"@ + join(normalize(split_on(absolute_path(pwd, raw), '/')), "/"@)
}

/// Where `cd` goes: home for no argument, an empty one or `~`; the previous
/// directory for `-` (an error when there is none); otherwise the resolved
/// path.
pub open spec fn cd_destination(st: StateView, target: Option<Seq<char>>) -> Result<Seq<char>, Seq<char>> {
    match target {
        None => Ok(initial_pwd()),
        Some(t) => if t.len() == 0 || t == "~"@ {
            Ok(initial_pwd())
        } else if t == "-"@ {
            match st.1 {
                Some(o) => Ok(o),
                None => Err("cd: OLDPWD not set"@),
            }
        } else {
            Ok(resolve(st.0, t))
        },
    }
}

/// The state after `cd`, and what it prints, or its error (which leaves the
/// state as it was).
pub open spec fn cd_spec(st: StateView, target: Option<Seq<char>>) -> Result<StateView, Seq<char>> {
    match cd_destination(st, target) {
        Ok(d) => Ok((d, Some(st.0))),
        Err(e) => Err(e),
    }
}

/// The view of an optional borrowed text.
pub open spec fn opt_text(t: Option<&str>) -> Option<Seq<char>> {
    match t {
        Some(s) => Some(s@),
        None => None,
    }
}

impl ShellState {
    /// A shell in the home directory, with no previous directory.
    pub fn new() -> (s: Self)
        ensures
            s@ == (initial_pwd(), None::<Seq<char>>),
    {
        ShellState { pwd: owned(INITIAL_PWD), oldpwd: None }
    }

    /// Changes the working directory and returns the new one.
    pub fn cd(&mut self, target: Option<&str>) -> (r: Result<String, &'static str>)
        ensures
            match r {
                Ok(p) => {
                    &&& cd_spec(old(self)@, opt_text(target)) == Ok::<StateView, Seq<char>>(final(self)@)
                    &&& p@ == final(self)@.0
                },
                Err(e) => {
                    &&& cd_spec(old(self)@, opt_text(target)) == Err::<StateView, Seq<char>>(e@)
                    &&& final(self)@ == old(self)@
                },
            },
    {
        let destination = match target {
            None => owned(INITIAL_PWD),
            Some(t) => {
                let tc = chars_of(t);
                if tc.len() == 0 || is_text(&tc, "~") {
                    owned(INITIAL_PWD)
                } else if is_text(&tc, "-") {
                    match &self.oldpwd {
                        Some(o) => o.clone(),
                        None => {
                            return Err("cd: OLDPWD not set");
                        },
                    }
                } else {
                    self.resolve_path(t)
                }
            },
        };
        self.oldpwd = Some(self.pwd.clone());
        self.pwd = destination;
        Ok(self.pwd.clone())
    }

    /// The canonical absolute path that `raw_path` names from here.
    fn resolve_path(&self, raw_path: &str) -> (r: String)
        ensures
            r@ == resolve(self.pwd@, raw_path@),
    {
        let raw = chars_of(raw_path);
        let slash = chars_lit("/");
        let absolute = if raw.len() > 0 && raw[0] == '/' {
            raw
        } else {
            let mut a = chars_of(self.pwd.as_str());
            append_chars(&mut a, &slash);
            append_chars(&mut a, &raw);
            a
        };
        let parts = split_chars(&absolute, '/');
        let mut comps: Vec<Vec<char>> = Vec::new();
        let mut i: usize = 0;
        assert(char_lists(parts@).take(0) =~= Seq::<Seq<char>>::empty());
        assert(char_lists(comps@) =~= Seq::<Seq<char>>::empty());
        while i < parts.len()
            invariant
                i <= parts.len(),
                char_lists(comps@) == normalize(char_lists(parts@).take(i as int)),
            decreases parts.len() - i,
        {
            let ghost before = comps@;
            let ghost pre = char_lists(parts@).take(i as int);
            assert(char_lists(parts@).take(i + 1).drop_last() =~= pre);
            assert(char_lists(parts@).take(i + 1).last() == parts@[i as int]@);
            assert(char_lists(comps@).len() == comps@.len());
            let part = &parts[i];
            if part.len() == 0 || is_text(part, ".") {
            } else if is_text(part, "..") {
                if comps.len() > 0 {
                    comps.pop();
                    assert(char_lists(comps@) =~= char_lists(before).drop_last());
                }
            } else {
                let c = slice_of(part, 0, part.len());
                assert(part@.subrange(0, part@.len() as int) =~= part@);
                comps.push(c);
                assert(char_lists(comps@) =~= char_lists(before).push(part@));
            }
            i = i + 1;
        }
        assert(char_lists(parts@).take(parts.len() as int) =~= char_lists(parts@));
        let mut out = chars_lit("/");
        let joined = join_chars(&comps, &slash);
        append_chars(&mut out, &joined);
        string_of(&out)
    }
}

/// A path component that `cd` keeps: not empty, not `.` or `..`, without
/// a slash.
pub open spec fn is_clean_component(x: Seq<char>) -> bool {
    &&& x.len() > 0
    &&& x != "."@
    &&& x != ".."@
    &&& !x.contains('/')
}

/// An absolute path in canonical form: a slash, then clean components
/// separated by single slashes.
pub open spec fn is_canonical_path(p: Seq<char>) -> bool {
    exists|c: Seq<Seq<char>>|
        (forall|k: int| 0 <= k < c.len() ==> is_clean_component(#[trigger] c[k])) && p == "/"@
            + #[trigger] join(c, "/"@)
}

proof fn lemma_normalize_clean(parts: Seq<Seq<char>>)
    requires
        forall|k: int| 0 <= k < parts.len() ==> !(#[trigger] parts[k]).contains('/'),
    ensures
        forall|k: int|
            0 <= k < normalize(parts).len() ==> is_clean_component(#[trigger] normalize(parts)[k]),
    decreases parts.len(),
{
    if parts.len() > 0 {
        let p = parts.drop_last();
        assert forall|k: int| 0 <= k < p.len() implies !(#[trigger] p[k]).contains('/') by {
            assert(p[k] == parts[k]);
        }
        lemma_normalize_clean(p);
        assert(!parts[parts.len() - 1].contains('/'));
        let q = normalize(p);
        let x = parts.last();
        assert forall|k: int| 0 <= k < normalize(parts).len() implies is_clean_component(#[trigger] normalize(parts)[k]) by {
            if x.len() == 0 || x == "."@ {
            } else if x == ".."@ {
                if q.len() > 0 {
                    assert(normalize(parts)[k] == q[k]);
                }
            } else {
                if k < q.len() {
                    assert(normalize(parts)[k] == q[k]);
                } else {
                    assert(normalize(parts)[k] == x);
                }
            }
        }
    }
}

/// The components of a resolved path are never empty, `.` or `..`, and hold
/// no slash: whatever it is given, `cd` lands on a canonical path.
pub proof fn law_resolved_path_is_canonical(pwd: Seq<char>, raw: Seq<char>)
    ensures
        is_canonical_path(resolve(pwd, raw)),
{
    let parts = split_on(absolute_path(pwd, raw), '/');
    lemma_split_flatten(absolute_path(pwd, raw), '/');
    lemma_normalize_clean(parts);
    let c = normalize(parts);
    assert(resolve(pwd, raw) == "/"@ + join(c, "/"@));
}

proof fn lemma_split_no_sep(b: Seq<char>, sep: char)
    requires
        !b.contains(sep),
    ensures
        split_on(b, sep) == seq![b],
    decreases b.len(),
{
    if b.len() == 0 {
        assert(b =~= Seq::<char>::empty());
        assert(split_on(b, sep) =~= seq![b]);
    } else {
        let b2 = b.drop_last();
        assert(!b2.contains(sep)) by {
            if b2.contains(sep) {
                let m = choose|m: int| 0 <= m < b2.len() && b2[m] == sep;
                assert(b[m] == sep);
            }
        }
        lemma_split_no_sep(b2, sep);
        assert(b.last() != sep) by {
            assert(b[b.len() - 1] == b.last());
        }
        assert(b.drop_last() == b2);
        assert(b2.push(b.last()) =~= b);
        assert(split_on(b, sep) == split_on(b2, sep).update(0, b2.push(b.last())));
        assert(split_on(b, sep) =~= seq![b]);
    }
}

proof fn lemma_split_append_piece(a: Seq<char>, b: Seq<char>, sep: char)
    requires
        !b.contains(sep),
    ensures
        split_on(a + seq![sep] + b, sep) == split_on(a, sep).push(b),
    decreases b.len(),
{
    if b.len() == 0 {
        let s = a + seq![sep] + b;
        assert(s.drop_last() =~= a);
        assert(s.last() == sep);
        assert(b =~= Seq::<char>::empty());
        assert(split_on(s, sep) == split_on(a, sep).push(Seq::empty()));
    } else {
        let b2 = b.drop_last();
        assert(!b2.contains(sep)) by {
            if b2.contains(sep) {
                let m = choose|m: int| 0 <= m < b2.len() && b2[m] == sep;
                assert(b[m] == sep);
            }
        }
        lemma_split_append_piece(a, b2, sep);
        let s = a + seq![sep] + b;
        let s2 = a + seq![sep] + b2;
        assert(s.drop_last() =~= s2);
        assert(b[b.len() - 1] == b.last());
        assert(s.last() == b.last());
        assert(b2.push(b.last()) =~= b);
        let p = split_on(s2, sep);
        assert(p == split_on(a, sep).push(b2));
        assert(split_on(s, sep) == p.update(p.len() - 1, p.last().push(s.last())));
        assert(split_on(s, sep) =~= split_on(a, sep).push(b));
    }
}

/// The pieces of a canonical path: an empty one before the first slash, then
/// its components (and one more empty piece for the root itself).
proof fn lemma_split_canonical(c: Seq<Seq<char>>)
    requires
        forall|k: int| 0 <= k < c.len() ==> is_clean_component(#[trigger] c[k]),
    ensures
        split_on("/"@ + join(c, "/"@), '/') == (if c.len() == 0 {
            seq![Seq::<char>::empty(), Seq::<char>::empty()]
        } else {
            seq![Seq::<char>::empty()] + c
        }),
    decreases c.len(),
{
    reveal_strlit("/");
    let e = Seq::<char>::empty();
    if c.len() == 0 {
        assert("/"@ + join(c, "/"@) =~= e + seq!['/'] + e);
        lemma_split_append_piece(e, e, '/');
    } else if c.len() == 1 {
        assert(is_clean_component(c[0]));
        assert("/"@ + join(c, "/"@) =~= e + seq!['/'] + c[0]);
        lemma_split_append_piece(e, c[0], '/');
        assert(seq![e].push(c[0]) =~= seq![e] + c);
    } else {
        let d = c.drop_last();
        assert forall|k: int| 0 <= k < d.len() implies is_clean_component(#[trigger] d[k]) by {
            assert(d[k] == c[k]);
        }
        lemma_split_canonical(d);
        assert(is_clean_component(c[c.len() - 1]));
        assert("/"@ + join(c, "/"@) =~= ("/"@ + join(d, "/"@)) + seq!['/'] + c.last());
        lemma_split_append_piece("/"@ + join(d, "/"@), c.last(), '/');
        assert((seq![e] + d).push(c.last()) =~= seq![e] + c);
    }
}

proof fn lemma_normalize_clean_tail(c: Seq<Seq<char>>)
    requires
        forall|k: int| 0 <= k < c.len() ==> is_clean_component(#[trigger] c[k]),
    ensures
        normalize(seq![Seq::<char>::empty()] + c) == c,
    decreases c.len(),
{
    let e = Seq::<char>::empty();
    if c.len() == 0 {
        let x = seq![e] + c;
        assert(x.drop_last() =~= Seq::<Seq<char>>::empty());
        assert(x.last() == e);
        assert(normalize(x) == normalize(x.drop_last()));
        assert(normalize(x) =~= c);
    } else {
        let d = c.drop_last();
        assert forall|k: int| 0 <= k < d.len() implies is_clean_component(#[trigger] d[k]) by {
            assert(d[k] == c[k]);
        }
        lemma_normalize_clean_tail(d);
        let x = seq![e] + c;
        assert(x.drop_last() =~= seq![e] + d);
        assert(x.last() == c.last());
        assert(is_clean_component(c[c.len() - 1]));
        assert(normalize(x) == normalize(x.drop_last()).push(c.last()));
        assert(d.push(c.last()) =~= c);
    }
}

proof fn lemma_normalize_root() 
    ensures
        normalize(seq![Seq::<char>::empty(), Seq::<char>::empty()]) == Seq::<Seq<char>>::empty(),
{
    let e = Seq::<char>::empty();
    let x = seq![e, e];
    assert(x.drop_last() =~= seq![e]);
    assert(seq![e].drop_last() =~= Seq::<Seq<char>>::empty());
    assert(x.last() == e);
    assert(seq![e].last() == e);
    assert(normalize(seq![e]) == normalize(Seq::<Seq<char>>::empty()));
    assert(normalize(x) == normalize(seq![e]));
}

/// Resolving a canonical path, from anywhere, gives that path back.
pub proof fn law_canonical_path_resolves_to_itself(pwd: Seq<char>, p: Seq<char>)
    requires
        is_canonical_path(p),
    ensures
        resolve(pwd, p) == p,
{
    reveal_strlit("/");
    let c = choose|c: Seq<Seq<char>>|
        (forall|k: int| 0 <= k < c.len() ==> is_clean_component(#[trigger] c[k])) && p == "/"@
            + #[trigger] join(c, "/"@);
    assert(p[0] == '/');
    assert(absolute_path(pwd, p) == p);
    lemma_split_canonical(c);
    if c.len() == 0 {
        lemma_normalize_root();
        assert(join(Seq::<Seq<char>>::empty(), "/"@) =~= Seq::<char>::empty());
    } else {
        lemma_normalize_clean_tail(c);
    }
}

/// `cd .` from a canonical working directory stays where it is.
pub proof fn law_dot_resolves_to_pwd(pwd: Seq<char>)
    requires
        is_canonical_path(pwd),
    ensures
        resolve(pwd, "."@) == pwd,
{
    reveal_strlit("/");
    reveal_strlit(".");
    let c = choose|c: Seq<Seq<char>>|
        (forall|k: int| 0 <= k < c.len() ==> is_clean_component(#[trigger] c[k])) && pwd == "/"@
            + #[trigger] join(c, "/"@);
    assert(absolute_path(pwd, "."@) =~= pwd + seq!['/'] + "."@);
    assert(!"."@.contains('/')) by {
        assert("."@ =~= seq!['.']);
    }
    lemma_split_append_piece(pwd, "."@, '/');
    lemma_split_canonical(c);
    let parts = split_on(pwd, '/').push("."@);
    assert(parts.drop_last() == split_on(pwd, '/'));
    if c.len() == 0 {
        lemma_normalize_root();
        assert(join(Seq::<Seq<char>>::empty(), "/"@) =~= Seq::<char>::empty());
    } else {
        lemma_normalize_clean_tail(c);
    }
}

/// `cd -` right after a successful `cd` goes back to the directory that
/// `cd` left, and remembers the one it leaves.
pub proof fn law_cd_dash_goes_back(st: StateView, target: Option<Seq<char>>)
    requires
        cd_spec(st, target) is Ok,
    ensures
        cd_spec(cd_spec(st, target)->Ok_0, Some("-"@)) == Ok::<StateView, Seq<char>>(
            (st.0, Some(cd_spec(st, target)->Ok_0.0)),
        ),
{
    reveal_strlit("-");
    reveal_strlit("~");
    let st2 = cd_spec(st, target)->Ok_0;
    assert("-"@.len() != 0);
    assert("-"@[0] != "~"@[0]);
    assert(cd_destination(st2, Some("-"@)) == Ok::<Seq<char>, Seq<char>>(st.0));
}

/// The home directory is a canonical path.
pub proof fn lemma_initial_pwd_is_canonical()
    ensures
        is_canonical_path(initial_pwd()),
{
    reveal_strlit("/home/user");
    reveal_strlit("/");
    reveal_strlit(".");
    reveal_strlit("..");
    let home = seq!['h', 'o', 'm', 'e'];
    let user = seq!['u', 's', 'e', 'r'];
    let c = seq![home, user];
    assert(c.drop_last() =~= seq![home]);
    assert(join(c, "/"@) == join(seq![home], "/"@) + "/"@ + user);
    assert(initial_pwd() =~= "/"@ + join(c, "/"@));
    assert(!home.contains('/')) by {
        if home.contains('/') {
            let m = choose|m: int| 0 <= m < home.len() && home[m] == '/';
        }
    }
    assert(!user.contains('/')) by {
        if user.contains('/') {
            let m = choose|m: int| 0 <= m < user.len() && user[m] == '/';
        }
    }
    assert(home != "."@ && home != ".."@ && user != "."@ && user != ".."@) by {
        assert(home.len() != "."@.len() && home.len() != ".."@.len());
    }
    assert(forall|k: int| 0 <= k < c.len() ==> is_clean_component(#[trigger] c[k]));
}

/// `cd` keeps the shell's directories canonical: when the working directory
/// and the previous one (if any) are canonical, they still are after `cd`.
pub proof fn law_cd_keeps_directories_canonical(st: StateView, target: Option<Seq<char>>)
    requires
        is_canonical_path(st.0),
        st.1 matches Some(o) ==> is_canonical_path(o),
        cd_spec(st, target) is Ok,
    ensures
        is_canonical_path(cd_spec(st, target)->Ok_0.0),
        cd_spec(st, target)->Ok_0.1 matches Some(o) && is_canonical_path(o),
{
    lemma_initial_pwd_is_canonical();
    if let Some(t) = target {
        law_resolved_path_is_canonical(st.0, t);
    }
}

} // verus!
