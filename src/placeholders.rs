//! `{{name}}` placeholder substitution over strings and configuration trees.

use vstd::prelude::*;
use vstd::string::*;

verus! {

broadcast use vstd::std_specs::vec::axiom_vec_index_decreases;

/// The placeholder token for `key`: `{{key}}`.
pub open spec fn token(key: Seq<char>) -> Seq<char> {
    seq!['{', '{'] + key + seq!['}', '}']
}

/// `pat` occurs in `s` starting at position `i`.
pub open spec fn occurs_at(s: Seq<char>, pat: Seq<char>, i: int) -> bool {
    0 <= i && i + pat.len() <= s.len() && s.subrange(i, i + pat.len()) == pat
}

/// Every non-overlapping occurrence of `pat` in `s`, scanned left to right,
/// replaced by `rep`.
pub open spec fn replace_all(s: Seq<char>, pat: Seq<char>, rep: Seq<char>) -> Seq<char>
    decreases s.len(),
{
    if pat.len() == 0 || s.len() < pat.len() {
        s
    } else if s.subrange(0, pat.len() as int) == pat {
        rep + replace_all(s.subrange(pat.len() as int, s.len() as int), pat, rep)
    } else {
        seq![s[0]] + replace_all(s.subrange(1, s.len() as int), pat, rep)
    }
}

/// `s` with the token of each binding replaced by its value, the bindings
/// applied one after another in order.
pub open spec fn resolve_with(vars: Seq<(Seq<char>, Seq<char>)>, s: Seq<char>) -> Seq<char>
    decreases vars.len(),
{
    if vars.len() == 0 {
        s
    } else {
        let last = vars[vars.len() - 1];
        replace_all(resolve_with(vars.drop_last(), s), token(last.0), last.1)
    }
}

/// No bound token occurs anywhere in `s`.
pub open spec fn free_of_tokens(vars: Seq<(Seq<char>, Seq<char>)>, s: Seq<char>) -> bool {
    forall|j: int, i: int| 0 <= j < vars.len() ==> !occurs_at(s, token(vars[j].0), i)
}

/// Keys of the bindings are pairwise distinct.
pub open spec fn keys_unique(vars: Seq<(Seq<char>, Seq<char>)>) -> bool {
    forall|a: int, b: int| 0 <= a < vars.len() && 0 <= b < vars.len() && a != b ==> vars[a].0 != vars[b].0
}

/// The bindings after binding `key` to `value`: an existing binding of `key`
/// is overwritten in place, otherwise the binding is appended.
pub open spec fn bind(vars: Seq<(Seq<char>, Seq<char>)>, key: Seq<char>, value: Seq<char>) -> Seq<(Seq<char>, Seq<char>)> {
    if exists|j: int| 0 <= j < vars.len() && vars[j].0 == key {
        let j = choose|j: int| 0 <= j < vars.len() && vars[j].0 == key;
        vars.update(j, (key, value))
    } else {
        vars.push((key, value))
    }
}

/// A TOML value of a kind that substitution never looks into (numbers,
/// booleans, dates, arrays).
#[verifier::external_type_specification]
#[verifier::external_body]
pub struct ExTomlValue(toml::Value);

/// Relies on toml's derived `Clone` for `Value`: the copy equals the value it was made from.
pub assume_specification[ <toml::Value as Clone>::clone ](v: &toml::Value) -> (r: toml::Value)
    ensures
        r == *v,
;

/// A node of a configuration tree.
#[derive(PartialEq, Debug)]
pub enum ConfigValue {
    /// A string leaf: the only kind of leaf that substitution rewrites.
    Text(String),
    /// A nested table of named entries.
    Table(Vec<(String, ConfigValue)>),
    /// Any other leaf, carried through unchanged.
    Other(toml::Value),
}

/// `res` is `orig` with every string leaf resolved against `vars`, every key
/// and every other leaf kept.
pub open spec fn value_resolved(vars: Seq<(Seq<char>, Seq<char>)>, orig: ConfigValue, res: ConfigValue) -> bool
    decreases orig,
{
    match orig {
        ConfigValue::Text(s) => res is Text && res->Text_0@ == resolve_with(vars, s@),
        ConfigValue::Table(t) => res is Table && table_resolved_shallow(t@, res->Table_0@) && forall|i: int|
            #![trigger t@[i]]
            0 <= i < t@.len() ==> value_resolved(vars, t@[i].1, res->Table_0@[i].1),
        ConfigValue::Other(x) => res is Other && res->Other_0 == x,
    }
}

/// Same length and the same keys, position by position.
pub open spec fn table_resolved_shallow(t: Seq<(String, ConfigValue)>, r: Seq<(String, ConfigValue)>) -> bool {
    r.len() == t.len() && forall|i: int| 0 <= i < t.len() ==> #[trigger] r[i].0@ == t[i].0@
}

/// A mapping from placeholder names to their values.
pub struct Context {
    variables: Vec<(String, String)>,
}

impl View for Context {
    type V = Seq<(Seq<char>, Seq<char>)>;

    closed spec fn view(&self) -> Seq<(Seq<char>, Seq<char>)> {
        self.variables@.map_values(|p: (String, String)| (p.0@, p.1@))
    }
}

impl Context {
    pub open spec fn wf(&self) -> bool {
        keys_unique(self@)
    }

    /// An empty context.
    pub fn new() -> (r: Context)
        ensures
            r@ == Seq::<(Seq<char>, Seq<char>)>::empty(),
            r.wf(),
    {
        Context { variables: Vec::new() }
    }

    /// Binds `key` to `value`, replacing any earlier value of `key`.
    pub fn set(&mut self, key: String, value: String)
        requires
            old(self).wf(),
        ensures
            final(self).wf(),
            final(self)@ == bind(old(self)@, key@, value@),
    {
        let mut j: usize = 0;
        while j < self.variables.len()
            invariant
                0 <= j <= self.variables.len(),
                self.wf(),
                self == old(self),
                forall|k: int| 0 <= k < j ==> self@[k].0 != key@,
            decreases self.variables.len() - j,
        {
            if self.variables[j].0 == key {
                let ghost before = self@;
                self.variables[j] = (key, value);
                proof {
                    assert(before[j as int].0 == key@);
                    assert forall|k: int| 0 <= k < before.len() && before[k].0 == key@ implies k == j by {}
                    assert(self@ =~= before.update(j as int, (key@, value@)));
                }
                return;
            }
            j += 1;
        }
        let ghost before = self@;
        self.variables.push((key, value));
        proof {
            assert(self@ =~= before.push((key@, value@)));
        }
    }

    /// `input` with every `{{k}}` replaced by the value bound to `k`;
    /// placeholders without a binding are kept as they are.
    pub fn resolve(&self, input: &str) -> (r: String)
        ensures
            r@ == resolve_with(self@, input@),
    {
        let mut resolved = String::from_str(input);
        let mut i: usize = 0;
        while i < self.variables.len()
            invariant
                0 <= i <= self.variables.len(),
                resolved@ == resolve_with(self@.take(i as int), input@),
            decreases self.variables.len() - i,
        {
            let tok = token_of(&self.variables[i].0);
            let next = replace_text(resolved.as_str(), tok.as_str(), self.variables[i].1.as_str());
            proof {
                let t = self@.take(i as int + 1);
                assert(t.drop_last() =~= self@.take(i as int));
                assert(t[t.len() - 1] == self@[i as int]);
            }
            resolved = next;
            i += 1;
        }
        proof {
            assert(self@.take(self@.len() as int) =~= self@);
        }
        resolved
    }

    /// `table` with every string leaf resolved, nested tables resolved in
    /// turn, and every key and other leaf kept as it is.
    pub fn resolve_table(&self, table: &Vec<(String, ConfigValue)>) -> (r: Vec<(String, ConfigValue)>)
        ensures
            table_resolved_shallow(table@, r@),
            forall|i: int|
                #![trigger table@[i]]
                0 <= i < table@.len() ==> value_resolved(self@, table@[i].1, r@[i].1),
            forall|i: int|
                #![trigger table@[i]]
                0 <= i < table@.len() && table@[i].1 is Other ==> r@[i].1 == table@[i].1,
        decreases table,
    {
        let mut resolved: Vec<(String, ConfigValue)> = Vec::new();
        let mut i: usize = 0;
        while i < table.len()
            invariant
                0 <= i <= table@.len(),
                resolved@.len() == i,
                forall|k: int| 0 <= k < i ==> #[trigger] resolved@[k].0@ == table@[k].0@,
                forall|k: int|
                    #![trigger table@[k]]
                    0 <= k < i ==> value_resolved(self@, table@[k].1, resolved@[k].1),
            decreases table@.len() - i,
        {
            let entry = &table[i];
            proof {
                assert(decreases_to!(table => table[i as int]));
            }
            let value = match &entry.1 {
                ConfigValue::Text(s) => ConfigValue::Text(self.resolve(s.as_str())),
                ConfigValue::Table(t) => ConfigValue::Table(self.resolve_table(t)),
                ConfigValue::Other(v) => ConfigValue::Other(v.clone()),
            };
            resolved.push((entry.0.clone(), value));
            i += 1;
        }
        proof {
            assert forall|k: int|
                #![trigger table@[k]]
                0 <= k < table@.len() && table@[k].1 is Other implies resolved@[k].1 == table@[k].1 by {
                assert(value_resolved(self@, table@[k].1, resolved@[k].1));
            }
        }
        resolved
    }
}

/// Builds `{{key}}`.
fn token_of(key: &String) -> (r: String)
    ensures
        r@ == token(key@),
{
    let mut t = String::from_str("{{");
    t.append(key.as_str());
    t.append("}}");
    proof {
        reveal_strlit("{{");
        reveal_strlit("}}");
        assert(t@ =~= token(key@));
    }
    t
}

/// Whether `a` and `b` hold the same characters.
pub(crate) fn same_text(a: &str, b: &str) -> (r: bool)
    ensures
        r == (a@ == b@),
{
    if a.unicode_len() != b.unicode_len() {
        return false;
    }
    let r = occurs_in_at(a, b, 0);
    proof {
        if r {
            assert(a@.subrange(0, a@.len() as int) =~= a@);
        } else {
            assert(a@.subrange(0, b@.len() as int) =~= a@);
        }
    }
    r
}

/// Whether `pat` occurs in `s` at position `i`.
pub(crate) fn occurs_in_at(s: &str, pat: &str, i: usize) -> (r: bool)
    requires
        i <= s@.len(),
    ensures
        r == occurs_at(s@, pat@, i as int),
{
    let n = s.unicode_len();
    let m = pat.unicode_len();
    if m > n - i {
        return false;
    }
    let mut j: usize = 0;
    while j < m
        invariant
            n == s@.len(),
            m == pat@.len(),
            i + m <= n,
            0 <= j <= m,
            forall|k: int| 0 <= k < j ==> s@[i + k] == pat@[k],
        decreases m - j,
    {
        if s.get_char(i + j) != pat.get_char(j) {
            proof {
                assert(s@.subrange(i as int, i + m)[j as int] != pat@[j as int]);
            }
            return false;
        }
        j += 1;
    }
    proof {
        assert(s@.subrange(i as int, i + m) =~= pat@);
    }
    true
}

/// `s` with every non-overlapping occurrence of `pat` replaced by `rep`.
fn replace_text(s: &str, pat: &str, rep: &str) -> (r: String)
    requires
        pat@.len() > 0,
    ensures
        r@ == replace_all(s@, pat@, rep@),
{
    let n = s.unicode_len();
    let m = pat.unicode_len();
    let mut out = String::new();
    let mut i: usize = 0;
    proof {
        assert(s@.subrange(0, n as int) =~= s@);
    }
    while i < n
        invariant
            n == s@.len(),
            m == pat@.len(),
            m > 0,
            0 <= i <= n,
            out@ + replace_all(s@.subrange(i as int, n as int), pat@, rep@) == replace_all(s@, pat@, rep@),
        decreases n - i,
    {
        let rest = Ghost(s@.subrange(i as int, n as int));
        if occurs_in_at(s, pat, i) {
            proof {
                assert(rest@.subrange(0, m as int) =~= s@.subrange(i as int, i + m));
                assert(rest@.subrange(m as int, rest@.len() as int) =~= s@.subrange(i + m, n as int));
            }
            out.append(rep);
            i = i + m;
        } else {
            proof {
                if rest@.len() >= m {
                    assert(rest@.subrange(0, m as int) =~= s@.subrange(i as int, i + m));
                }
                assert(rest@.subrange(1, rest@.len() as int) =~= s@.subrange(i + 1, n as int));
            }
            let c = s.substring_char(i, i + 1);
            proof {
                if rest@.len() < m {
                    assert(replace_all(rest@, pat@, rep@) == rest@);
                    assert(rest@ =~= seq![rest@[0]] + rest@.subrange(1, rest@.len() as int));
                    lemma_replace_short(rest@.subrange(1, rest@.len() as int), pat@, rep@);
                }
                assert(c@ =~= seq![rest@[0]]);
            }
            out.append(c);
            i = i + 1;
        }
    }
    proof {
        assert(s@.subrange(n as int, n as int) =~= Seq::<char>::empty());
    }
    out
}

proof fn lemma_replace_short(s: Seq<char>, pat: Seq<char>, rep: Seq<char>)
    requires
        s.len() < pat.len(),
    ensures
        replace_all(s, pat, rep) == s,
{
}

/// Replacing a pattern that does not occur leaves the text unchanged.
pub proof fn lemma_replace_absent(s: Seq<char>, pat: Seq<char>, rep: Seq<char>)
    requires
        forall|i: int| !occurs_at(s, pat, i),
    ensures
        replace_all(s, pat, rep) == s,
    decreases s.len(),
{
    if pat.len() == 0 || s.len() < pat.len() {
    } else {
        assert(!occurs_at(s, pat, 0));
        let t = s.subrange(1, s.len() as int);
        assert forall|i: int| !occurs_at(t, pat, i) by {
            if occurs_at(t, pat, i) {
                assert(s.subrange(i + 1, i + 1 + pat.len()) =~= t.subrange(i, i + pat.len()));
                assert(occurs_at(s, pat, i + 1));
            }
        }
        lemma_replace_absent(t, pat, rep);
        assert(s =~= seq![s[0]] + t);
    }
}

/// Resolving a string in which no bound token occurs returns it unchanged.
pub proof fn lemma_resolve_free(vars: Seq<(Seq<char>, Seq<char>)>, s: Seq<char>)
    requires
        free_of_tokens(vars, s),
    ensures
        resolve_with(vars, s) == s,
    decreases vars.len(),
{
    if vars.len() > 0 {
        let front = vars.drop_last();
        assert forall|j: int, i: int| 0 <= j < front.len() implies !occurs_at(s, token(front[j].0), i) by {
            assert(front[j] == vars[j]);
        }
        lemma_resolve_free(front, s);
        let last = vars[vars.len() - 1];
        assert forall|i: int| !occurs_at(s, token(last.0), i) by {
            assert(!occurs_at(s, token(vars[vars.len() - 1].0), i));
        }
        lemma_replace_absent(s, token(last.0), last.1);
    }
}

/// Resolution is idempotent on every input whose resolution leaves no bound
/// token behind: resolving the result again changes nothing.
pub proof fn lemma_resolve_idempotent(ctx: &Context, s: Seq<char>)
    requires
        free_of_tokens(ctx@, resolve_with(ctx@, s)),
    ensures
        resolve_with(ctx@, resolve_with(ctx@, s)) == resolve_with(ctx@, s),
{
    lemma_resolve_free(ctx@, resolve_with(ctx@, s));
}

// ---- text made of brace-free runs and placeholder tokens --------------------

pub open spec fn is_brace(c: char) -> bool {
    c == '{' || c == '}'
}

pub open spec fn brace_free(s: Seq<char>) -> bool {
    forall|i: int| 0 <= i < s.len() ==> !is_brace(#[trigger] s[i])
}

/// A piece of text: a run without braces, or a placeholder token `{{w}}`.
pub enum Piece {
    Run(Seq<char>),
    Token(Seq<char>),
}

pub open spec fn piece_text(p: Piece) -> Seq<char> {
    match p {
        Piece::Run(t) => t,
        Piece::Token(w) => token(w),
    }
}

/// The text that `pieces` spell.
pub open spec fn render(pieces: Seq<Piece>) -> Seq<char>
    decreases pieces.len(),
{
    if pieces.len() == 0 {
        Seq::empty()
    } else {
        piece_text(pieces[0]) + render(pieces.drop_first())
    }
}

/// Runs and token names hold no braces.
pub open spec fn pieces_wf(pieces: Seq<Piece>) -> bool {
    forall|i: int|
        0 <= i < pieces.len() ==> match #[trigger] pieces[i] {
            Piece::Run(t) => brace_free(t),
            Piece::Token(w) => brace_free(w),
        }
}

/// No key and no value of the bindings holds a brace.
pub open spec fn bindings_brace_free(vars: Seq<(Seq<char>, Seq<char>)>) -> bool {
    forall|j: int| 0 <= j < vars.len() ==> brace_free(#[trigger] vars[j].0) && brace_free(vars[j].1)
}

/// `pieces` with each token named `k` turned into the run `v`.
pub open spec fn subst(pieces: Seq<Piece>, k: Seq<char>, v: Seq<char>) -> Seq<Piece> {
    pieces.map_values(|p: Piece| if p == Piece::Token(k) { Piece::Run(v) } else { p })
}

pub open spec fn subst_all(vars: Seq<(Seq<char>, Seq<char>)>, pieces: Seq<Piece>) -> Seq<Piece>
    decreases vars.len(),
{
    if vars.len() == 0 {
        pieces
    } else {
        let last = vars[vars.len() - 1];
        subst(subst_all(vars.drop_last(), pieces), last.0, last.1)
    }
}

proof fn lemma_replace_skip(t: Seq<char>, r: Seq<char>, pat: Seq<char>, rep: Seq<char>)
    requires
        pat.len() > 0,
        pat[0] == '{',
        forall|i: int| 0 <= i < t.len() ==> #[trigger] t[i] != '{',
    ensures
        replace_all(t + r, pat, rep) == t + replace_all(r, pat, rep),
    decreases t.len(),
{
    let s = t + r;
    if t.len() == 0 {
        assert(s =~= r);
    } else if s.len() < pat.len() {
        assert(s =~= t + r);
    } else {
        assert(s.subrange(0, pat.len() as int)[0] != pat[0]);
        let t1 = t.subrange(1, t.len() as int);
        assert forall|i: int| 0 <= i < t1.len() implies #[trigger] t1[i] != '{' by {
            assert(t1[i] == t[i + 1]);
        }
        lemma_replace_skip(t1, r, pat, rep);
        assert(s.subrange(1, s.len() as int) =~= t1 + r);
        assert(seq![s[0]] + (t1 + replace_all(r, pat, rep)) =~= t + replace_all(r, pat, rep));
    }
}

proof fn lemma_replace_token(w: Seq<char>, k: Seq<char>, r: Seq<char>, v: Seq<char>)
    requires
        brace_free(w),
        brace_free(k),
    ensures
        replace_all(token(w) + r, token(k), v) == if w == k {
            v + replace_all(r, token(k), v)
        } else {
            token(w) + replace_all(r, token(k), v)
        },
{
    let pat = token(k);
    let s = token(w) + r;
    if w == k {
        assert(s.subrange(0, pat.len() as int) =~= pat);
        assert(s.subrange(pat.len() as int, s.len() as int) =~= r);
    } else {
        let tail = w + seq!['}', '}'];
        assert forall|i: int| 0 <= i < tail.len() implies #[trigger] tail[i] != '{' by {
            if i < w.len() {
                assert(!is_brace(w[i]));
            }
        }
        lemma_replace_skip(tail, r, pat, v);
        let s1 = seq!['{'] + tail + r;
        assert(s =~= seq!['{'] + s1);
        if s.len() >= pat.len() {
            // `token(w)` and `token(k)` differ within the first `pat.len()` characters
            if w.len() == k.len() {
                assert(exists|j: int| 0 <= j < w.len() && w[j] != k[j]) by {
                    if !(exists|j: int| 0 <= j < w.len() && w[j] != k[j]) {
                        assert(w =~= k);
                    }
                }
                let j = choose|j: int| 0 <= j < w.len() && w[j] != k[j];
                assert(s.subrange(0, pat.len() as int)[2 + j] != pat[2 + j]);
            } else if w.len() < k.len() {
                assert(!is_brace(k[w.len() as int]));
                assert(s.subrange(0, pat.len() as int)[2 + w.len() as int] != pat[2 + w.len() as int]);
            } else {
                assert(!is_brace(w[k.len() as int]));
                assert(s.subrange(0, pat.len() as int)[2 + k.len() as int] != pat[2 + k.len() as int]);
            }
            assert(s.subrange(1, s.len() as int) =~= s1);
            assert(s[0] == '{');
            assert(replace_all(s, pat, v) == seq!['{'] + replace_all(s1, pat, v));
        } else {
            assert(replace_all(s, pat, v) == s);
            assert(r.len() < pat.len());
            assert(replace_all(r, pat, v) == r);
        }
        if s1.len() >= pat.len() {
            if w.len() > 0 {
                assert(!is_brace(w[0]));
            }
            assert(s1.subrange(0, pat.len() as int)[1] != pat[1]);
            assert(s1.subrange(1, s1.len() as int) =~= tail + r);
            assert(replace_all(s1, pat, v) == seq!['{'] + replace_all(tail + r, pat, v));
        } else {
            assert(r.len() < pat.len());
            assert(replace_all(r, pat, v) == r);
            assert(replace_all(s1, pat, v) == s1);
            assert(s1 =~= seq!['{'] + (tail + r));
        }
        assert(token(w) =~= seq!['{', '{'] + tail);
        assert(seq!['{'] + (seq!['{'] + (tail + replace_all(r, pat, v))) =~= token(w) + replace_all(r, pat, v));
    }
}

proof fn lemma_replace_render(pieces: Seq<Piece>, k: Seq<char>, v: Seq<char>)
    requires
        pieces_wf(pieces),
        brace_free(k),
    ensures
        replace_all(render(pieces), token(k), v) == render(subst(pieces, k, v)),
    decreases pieces.len(),
{
    let pat = token(k);
    if pieces.len() == 0 {
    } else {
        let rest = pieces.drop_first();
        assert forall|i: int| 0 <= i < rest.len() implies match #[trigger] rest[i] {
            Piece::Run(t) => brace_free(t),
            Piece::Token(w) => brace_free(w),
        } by {
            assert(rest[i] == pieces[i + 1]);
        }
        lemma_replace_render(rest, k, v);
        assert(subst(pieces, k, v).drop_first() =~= subst(rest, k, v));
        let p0 = pieces[0];
        assert(pieces_wf(pieces) ==> match pieces[0] {
            Piece::Run(t) => brace_free(t),
            Piece::Token(w) => brace_free(w),
        });
        match p0 {
            Piece::Run(t) => {
                assert forall|i: int| 0 <= i < t.len() implies #[trigger] t[i] != '{' by {
                    assert(!is_brace(t[i]));
                }
                lemma_replace_skip(t, render(rest), pat, v);
            },
            Piece::Token(w) => {
                lemma_replace_token(w, k, render(rest), v);
            },
        }
    }
}

proof fn lemma_subst_wf(pieces: Seq<Piece>, k: Seq<char>, v: Seq<char>)
    requires
        pieces_wf(pieces),
        brace_free(v),
    ensures
        pieces_wf(subst(pieces, k, v)),
{
    assert forall|i: int| 0 <= i < subst(pieces, k, v).len() implies match #[trigger] subst(pieces, k, v)[i] {
        Piece::Run(t) => brace_free(t),
        Piece::Token(w) => brace_free(w),
    } by {
        assert(match pieces[i] {
            Piece::Run(t) => brace_free(t),
            Piece::Token(w) => brace_free(w),
        });
    }
}

proof fn lemma_resolve_render(vars: Seq<(Seq<char>, Seq<char>)>, pieces: Seq<Piece>)
    requires
        pieces_wf(pieces),
        bindings_brace_free(vars),
    ensures
        resolve_with(vars, render(pieces)) == render(subst_all(vars, pieces)),
        pieces_wf(subst_all(vars, pieces)),
        forall|i: int, j: int|
            0 <= i < subst_all(vars, pieces).len() && 0 <= j < vars.len() ==> #[trigger] subst_all(vars, pieces)[i]
                != Piece::Token(#[trigger] vars[j].0),
    decreases vars.len(),
{
    if vars.len() > 0 {
        let front = vars.drop_last();
        assert forall|j: int| 0 <= j < front.len() implies brace_free(#[trigger] front[j].0) && brace_free(front[j].1) by {
            assert(front[j] == vars[j]);
        }
        lemma_resolve_render(front, pieces);
        let last = vars[vars.len() - 1];
        assert(brace_free(vars[vars.len() - 1].0) && brace_free(vars[vars.len() - 1].1));
        let q = subst_all(front, pieces);
        lemma_replace_render(q, last.0, last.1);
        lemma_subst_wf(q, last.0, last.1);
        let q2 = subst(q, last.0, last.1);
        assert forall|i: int, j: int| 0 <= i < q2.len() && 0 <= j < vars.len() implies #[trigger] q2[i] != Piece::Token(
            #[trigger] vars[j].0,
        ) by {
            if j < front.len() {
                assert(front[j] == vars[j]);
                assert(q[i] != Piece::Token(front[j].0));
            }
        }
    }
}

proof fn lemma_subst_all_id(vars: Seq<(Seq<char>, Seq<char>)>, pieces: Seq<Piece>)
    requires
        forall|i: int, j: int|
            0 <= i < pieces.len() && 0 <= j < vars.len() ==> #[trigger] pieces[i] != Piece::Token(#[trigger] vars[j].0),
    ensures
        subst_all(vars, pieces) == pieces,
    decreases vars.len(),
{
    if vars.len() > 0 {
        let front = vars.drop_last();
        assert forall|i: int, j: int| 0 <= i < pieces.len() && 0 <= j < front.len() implies #[trigger] pieces[i]
            != Piece::Token(#[trigger] front[j].0) by {
            assert(front[j] == vars[j]);
        }
        lemma_subst_all_id(front, pieces);
        let last = vars[vars.len() - 1];
        assert(forall|i: int| 0 <= i < pieces.len() ==> pieces[i] != Piece::Token(vars[vars.len() - 1].0));
        assert(subst(pieces, last.0, last.1) =~= pieces);
    }
}

/// Resolution is idempotent on text made of brace-free runs and
/// placeholder tokens `{{w}}` with brace-free names, when no key and no
/// value of the context holds a brace.
pub proof fn lemma_resolve_idempotent_tokens(ctx: &Context, pieces: Seq<Piece>)
    requires
        pieces_wf(pieces),
        bindings_brace_free(ctx@),
    ensures
        resolve_with(ctx@, resolve_with(ctx@, render(pieces))) == resolve_with(ctx@, render(pieces)),
{
    lemma_resolve_render(ctx@, pieces);
    let q = subst_all(ctx@, pieces);
    lemma_resolve_render(ctx@, q);
    lemma_subst_all_id(ctx@, q);
}

} // verus!
