//! Template-variable substitution: a flat scan that replaces `${name}`
//! placeholders by the values of a per-page variable mapping. Missing
//! variables expand to nothing, a `$` not followed by `{` is literal, and an
//! unterminated `${` consumes the rest of the input and contributes nothing.

use vstd::prelude::*;
use crate::text::{chars_eq, chars_to_string, str_to_chars};

verus! {

/// A mapping of unique variable names to replacement values, scoped to a
/// single substitution call.
pub struct VarMap {
    pairs: Vec<(String, String)>,
}

impl VarMap {
    pub closed spec fn wf(self) -> bool {
        forall|i: int, j: int|
            0 <= i < j < self.pairs@.len() ==> self.pairs@[i].0@ != self.pairs@[j].0@
    }

    pub closed spec fn has_key(self, k: Seq<char>) -> bool {
        exists|i: int| 0 <= i < self.pairs@.len() && self.pairs@[i].0@ == k
    }

    pub closed spec fn view(self) -> Map<Seq<char>, Seq<char>> {
        Map::new(
            |k: Seq<char>| self.has_key(k),
            |k: Seq<char>|
                self.pairs@[choose|i: int|
                    0 <= i < self.pairs@.len() && self.pairs@[i].0@ == k].1@,
        )
    }

    pub fn new() -> (r: VarMap)
        ensures
            r.wf(),
            r@ == Map::<Seq<char>, Seq<char>>::empty(),
    {
        let r = VarMap { pairs: Vec::new() };
        proof {
            assert(r@ =~= Map::<Seq<char>, Seq<char>>::empty());
        }
        r
    }

    /// Add a binding for a name not yet present.
    pub fn insert(&mut self, name: String, value: String)
        requires
            old(self).wf(),
            !old(self)@.dom().contains(name@),
        ensures
            final(self).wf(),
            final(self)@ == old(self)@.insert(name@, value@),
    {
        proof {
            assert(!old(self).has_key(name@)) by {
                if old(self).has_key(name@) {
                    assert(old(self)@.dom().contains(name@));
                }
            }
        }
        let ghost n = name@;
        let ghost v = value@;
        let ghost prior = self.pairs@;
        self.pairs.push((name, value));
        proof {
            assert forall|i: int, j: int|
                0 <= i < j < self.pairs@.len() implies self.pairs@[i].0@ != self.pairs@[j].0@ by {
                if j < prior.len() {
                    assert(old(self).wf());
                } else {
                    assert(self.pairs@[j].0@ == n);
                    assert(self.pairs@[i] == prior[i]);
                }
            }
            assert forall|k: Seq<char>| #[trigger] self.has_key(k) implies
                old(self).has_key(k) || k == n by {
                let i = choose|i: int| 0 <= i < self.pairs@.len() && self.pairs@[i].0@ == k;
                if i < prior.len() {
                    assert(prior[i].0@ == k);
                }
            }
            assert forall|k: Seq<char>| old(self).has_key(k) || k == n implies
                #[trigger] self.has_key(k) by {
                if old(self).has_key(k) {
                    let i = choose|i: int| 0 <= i < prior.len() && prior[i].0@ == k;
                    assert(self.pairs@[i].0@ == k);
                } else {
                    assert(self.pairs@[prior.len() as int].0@ == k);
                }
            }
            assert forall|k: Seq<char>| #[trigger] self.has_key(k) implies
                self@[k] == old(self)@.insert(n, v)[k] by {
                let i = choose|i: int| 0 <= i < self.pairs@.len() && self.pairs@[i].0@ == k;
                if k == n {
                    assert(!old(self).has_key(k));
                    assert(i == prior.len());
                    assert(self@[k] == v);
                } else {
                    assert(i < prior.len());
                    let i2 = choose|i2: int| 0 <= i2 < prior.len() && prior[i2].0@ == k;
                    assert(self.pairs@[i2].0@ == k);
                    assert(i == i2 || self.pairs@[i].0@ != self.pairs@[i2].0@);
                    assert(old(self)@[k] == prior[i2].1@);
                }
            }
            assert(self@ =~= old(self)@.insert(n, v));
        }
    }

    /// Look a name up; `None` exactly when the name is unbound.
    pub fn get(&self, name: &Vec<char>) -> (r: Option<&String>)
        requires
            self.wf(),
        ensures
            match r {
                Some(value) => self@.dom().contains(name@) && value@ == self@[name@],
                None => !self@.dom().contains(name@),
            },
    {
        let n = self.pairs.len();
        let mut i: usize = 0;
        while i < n
            invariant
                self.wf(),
                n == self.pairs@.len(),
                0 <= i <= n,
                forall|k: int| 0 <= k < i ==> self.pairs@[k].0@ != name@,
            decreases n - i,
        {
            let key_chars = str_to_chars(self.pairs[i].0.as_str());
            if chars_eq(&key_chars, name) {
                proof {
                    assert(self.has_key(name@));
                    let w = choose|w: int|
                        0 <= w < self.pairs@.len() && self.pairs@[w].0@ == name@;
                    assert(w == i || self.pairs@[w].0@ != self.pairs@[i as int].0@);
                }
                return Some(&self.pairs[i].1);
            }
            i += 1;
        }
        proof {
            if self.has_key(name@) {
                let w = choose|w: int| 0 <= w < self.pairs@.len() && self.pairs@[w].0@ == name@;
                assert(self.pairs@[w].0@ != name@);
            }
        }
        None
    }
}

/// What an absent name expands to: nothing.
pub open spec fn subst_lookup(m: Map<Seq<char>, Seq<char>>, name: Seq<char>) -> Seq<char> {
    if m.dom().contains(name) {
        m[name]
    } else {
        Seq::empty()
    }
}

/// Index of the first `}` at or after `from`, or the length if there is none.
pub open spec fn close_pos(t: Seq<char>, from: int) -> int
    decreases t.len() - from,
{
    if from < 0 || from >= t.len() {
        t.len() as int
    } else if t[from] == '}' {
        from
    } else {
        close_pos(t, from + 1)
    }
}

pub proof fn lemma_close_pos(t: Seq<char>, from: int)
    requires
        0 <= from <= t.len(),
    ensures
        from <= close_pos(t, from) <= t.len(),
        close_pos(t, from) < t.len() ==> t[close_pos(t, from)] == '}',
        forall|k: int| from <= k < close_pos(t, from) ==> t[k] != '}',
    decreases t.len() - from,
{
    if from < t.len() && t[from] != '}' {
        lemma_close_pos(t, from + 1);
    }
}

/// The meaning of substitution, by a single scan of the template.
pub open spec fn spec_subst(t: Seq<char>, m: Map<Seq<char>, Seq<char>>) -> Seq<char>
    decreases t.len(),
    via spec_subst_dec
{
    if t.len() == 0 {
        Seq::empty()
    } else if t[0] == '$' {
        if t.len() == 1 {
            seq!['$']
        } else if t[1] == '{' {
            let j = close_pos(t, 2);
            if j == t.len() {
                Seq::empty()
            } else {
                subst_lookup(m, t.subrange(2, j))
                    + spec_subst(t.subrange(j + 1, t.len() as int), m)
            }
        } else {
            seq![t[0], t[1]] + spec_subst(t.subrange(2, t.len() as int), m)
        }
    } else {
        seq![t[0]] + spec_subst(t.subrange(1, t.len() as int), m)
    }
}

#[via_fn]
proof fn spec_subst_dec(t: Seq<char>, m: Map<Seq<char>, Seq<char>>) {
    if t.len() >= 2 && t[0] == '$' && t[1] == '{' {
        lemma_close_pos(t, 2);
    }
}

/// A template with no `${` anywhere substitutes to itself, whatever the
/// variable mapping holds.
pub proof fn lemma_subst_no_placeholders(t: Seq<char>, m: Map<Seq<char>, Seq<char>>)
    requires
        forall|i: int| 0 <= i < t.len() - 1 ==> !(#[trigger] t[i] == '$' && t[i + 1] == '{'),
    ensures
        spec_subst(t, m) == t,
    decreases t.len(),
{
    if t.len() == 0 {
        assert(spec_subst(t, m) =~= t);
    } else if t[0] == '$' {
        if t.len() == 1 {
            assert(spec_subst(t, m) =~= t);
        } else {
            assert(t[1] != '{');
            let rest = t.subrange(2, t.len() as int);
            assert forall|i: int| 0 <= i < rest.len() - 1 implies
                !(#[trigger] rest[i] == '$' && rest[i + 1] == '{') by {
                assert(rest[i] == t[i + 2] && rest[i + 1] == t[i + 3]);
            }
            lemma_subst_no_placeholders(rest, m);
            assert(spec_subst(t, m) =~= t);
        }
    } else {
        let rest = t.subrange(1, t.len() as int);
        assert forall|i: int| 0 <= i < rest.len() - 1 implies
            !(#[trigger] rest[i] == '$' && rest[i + 1] == '{') by {
            assert(rest[i] == t[i + 1] && rest[i + 1] == t[i + 2]);
        }
        lemma_subst_no_placeholders(rest, m);
        assert(spec_subst(t, m) =~= t);
    }
}

/// Expand every `${name}` placeholder of `input` using `vars`.
pub fn substitute(input: &str, vars: &VarMap) -> (r: String)
    requires
        vars.wf(),
    ensures
        r@ == spec_subst(input@, vars@),
{
    let chars = str_to_chars(input);
    let n = chars.len();
    let mut out: Vec<char> = Vec::new();
    let mut i: usize = 0;
    proof {
        assert(chars@.subrange(0, n as int) =~= input@);
        assert(Seq::<char>::empty() + spec_subst(input@, vars@) =~= spec_subst(input@, vars@));
    }
    while i < n
        invariant
            vars.wf(),
            chars@ == input@,
            n == chars@.len(),
            0 <= i <= n,
            spec_subst(input@, vars@) ==
                out@ + spec_subst(chars@.subrange(i as int, n as int), vars@),
        decreases n - i,
    {
        let ghost suffix = chars@.subrange(i as int, n as int);
        let c = chars[i];
        assert(suffix[0] == c);
        if c == '$' {
            if i + 1 == n {
                let ghost out0 = out@;
                out.push('$');
                proof {
                    assert(suffix.len() == 1);
                    assert(spec_subst(suffix, vars@) =~= seq!['$']);
                    assert(spec_subst(chars@.subrange(n as int, n as int), vars@)
                        =~= Seq::<char>::empty());
                    assert(out@ + Seq::<char>::empty() =~= out0 + spec_subst(suffix, vars@));
                }
                i = n;
            } else if chars[i + 1] == '{' {
                assert(suffix[1] == '{');
                // scan for the closing brace
                let mut j: usize = i + 2;
                let mut name: Vec<char> = Vec::new();
                while j < n && chars[j] != '}'
                    invariant
                        chars@ == input@,
                        n == chars@.len(),
                        i + 2 <= j <= n,
                        name@ == chars@.subrange(i + 2, j as int),
                        forall|k: int| i + 2 <= k < j ==> chars@[k] != '}',
                    decreases n - j,
                {
                    let ch = chars[j];
                    name.push(ch);
                    proof {
                        assert(name@ =~= chars@.subrange(i + 2, j + 1));
                    }
                    j += 1;
                }
                proof {
                    lemma_close_pos(suffix, 2);
                    // close_pos on the suffix corresponds to absolute index j
                    assert forall|k: int| 2 <= k < j - i implies suffix[k] != '}' by {
                        assert(suffix[k] == chars@[i + k]);
                    }
                    if j < n {
                        assert(suffix[j - i] == chars@[j as int]);
                        assert(suffix[j - i] == '}');
                    }
                    assert(close_pos(suffix, 2) == j - i) by {
                        let p = close_pos(suffix, 2);
                        if p < j - i {
                            assert(suffix[p] == '}');
                            assert(suffix[p] == chars@[i + p]);
                        } else if p > j - i {
                            assert(j - i < suffix.len());
                            assert(suffix[j - i] != '}');
                        }
                    }
                    assert(name@ =~= suffix.subrange(2, j - i));
                }
                if j == n {
                    // an unterminated placeholder contributes nothing
                    proof {
                        assert(spec_subst(suffix, vars@) == Seq::<char>::empty());
                        assert(spec_subst(chars@.subrange(n as int, n as int), vars@)
                            =~= Seq::<char>::empty());
                        assert(out@ + Seq::<char>::empty() =~= out@);
                    }
                    i = n;
                } else {
                    let ghost out0 = out@;
                    match vars.get(&name) {
                        Some(value) => {
                            let mut value_chars = str_to_chars(value.as_str());
                            proof {
                                assert(value_chars@ == subst_lookup(vars@, name@));
                            }
                            out.append(&mut value_chars);
                        },
                        None => {
                            proof {
                                assert(subst_lookup(vars@, name@) =~= Seq::<char>::empty());
                                assert(out@ + subst_lookup(vars@, name@) =~= out@);
                            }
                        },
                    }
                    proof {
                        assert(out@ =~= out0 + subst_lookup(vars@, name@));
                    }
                    proof {
                        let rest = suffix.subrange(j - i + 1, suffix.len() as int);
                        assert(spec_subst(suffix, vars@) == subst_lookup(vars@, name@)
                            + spec_subst(rest, vars@));
                        assert(rest =~= chars@.subrange(j + 1, n as int));
                        assert(out0 + (subst_lookup(vars@, name@) + spec_subst(rest, vars@))
                            =~= out@ + spec_subst(rest, vars@));
                    }
                    i = j + 1;
                }
            } else {
                let c2 = chars[i + 1];
                assert(suffix[1] == c2);
                let ghost out0 = out@;
                out.push('$');
                out.push(c2);
                proof {
                    assert(spec_subst(suffix, vars@) == seq![suffix[0], suffix[1]]
                        + spec_subst(suffix.subrange(2, suffix.len() as int), vars@));
                    assert(suffix.subrange(2, suffix.len() as int)
                        =~= chars@.subrange(i + 2, n as int));
                    assert(out0 + seq!['$', c2] =~= out@);
                }
                i += 2;
            }
        } else {
            out.push(c);
            proof {
                assert(spec_subst(suffix, vars@) == seq![suffix[0]]
                    + spec_subst(suffix.subrange(1, suffix.len() as int), vars@));
                assert(suffix.subrange(1, suffix.len() as int)
                    =~= chars@.subrange(i + 1, n as int));
            }
            i += 1;
        }
    }
    proof {
        assert(chars@.subrange(n as int, n as int) =~= Seq::<char>::empty());
        assert(spec_subst(Seq::<char>::empty(), vars@) =~= Seq::<char>::empty());
        assert(out@ + Seq::<char>::empty() =~= out@);
    }
    chars_to_string(&out)
}

} // verus!
