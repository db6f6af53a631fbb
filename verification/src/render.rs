//! The template renderer: a single left-to-right pass over the template
//! replacing each `{key}` span whose enclosed text exactly matches a bound
//! variable by that variable's value. A span whose key is unbound, a `{`
//! whose matching `}` does not come before the next `{`, and a `{` never
//! closed at all are kept verbatim. Replacement values are inserted
//! literally and never re-scanned.

use crate::text::{chars_to_string, str_to_chars};
use crate::vars::VarMap;
use vstd::prelude::*;

verus! {

/// The position of the `}` closing a candidate key scan that starts at `i`:
/// the first `}` at or after `i`, provided neither the end of the template
/// nor a `{` comes first.
pub open spec fn close_pos(s: Seq<char>, i: int) -> Option<int>
    decreases s.len() - i,
{
    if i < 0 || i >= s.len() {
        None
    } else if s[i] == '}' {
        Some(i)
    } else if s[i] == '{' {
        None
    } else {
        close_pos(s, i + 1)
    }
}

/// The rendered form of the template from position `i` on.
pub open spec fn render_from(s: Seq<char>, vars: Map<Seq<char>, Seq<char>>, i: int) -> Seq<char>
    decreases s.len() - i,
{
    if i < 0 || i >= s.len() {
        Seq::empty()
    } else if s[i] != '{' {
        seq![s[i]] + render_from(s, vars, i + 1)
    } else {
        match close_pos(s, i + 1) {
            Some(j) => {
                if i + 1 <= j < s.len() && vars.contains_key(s.subrange(i + 1, j)) {
                    vars[s.subrange(i + 1, j)] + render_from(s, vars, j + 1)
                } else {
                    seq!['{'] + render_from(s, vars, i + 1)
                }
            },
            None => seq!['{'] + render_from(s, vars, i + 1),
        }
    }
}

/// What rendering a whole template means.
pub open spec fn spec_render(s: Seq<char>, vars: Map<Seq<char>, Seq<char>>) -> Seq<char> {
    render_from(s, vars, 0)
}

/// Renders the characters of `t` with the given variable bindings.
fn render_chars(t: &Vec<char>, vars: &VarMap) -> (out: Vec<char>)
    ensures
        out@ == spec_render(t@, vars@),
{
    let mut out: Vec<char> = Vec::new();
    let mut i: usize = 0;
    while i < t.len()
        invariant
            i <= t@.len(),
            spec_render(t@, vars@) == out@ + render_from(t@, vars@, i as int),
        decreases t@.len() - i,
    {
        let ghost out_at_entry = out@;
        let c = t[i];
        if c != '{' {
            out.push(c);
            proof {
                assert(render_from(t@, vars@, i as int) == seq![t@[i as int]] + render_from(
                    t@,
                    vars@,
                    i + 1,
                ));
                assert(out@ + render_from(t@, vars@, i + 1) =~= out_at_entry + render_from(
                    t@,
                    vars@,
                    i as int,
                ));
            }
            i = i + 1;
        } else {
            // Scan for the '}' that would close a key starting at i + 1.
            let mut j: usize = i + 1;
            while j < t.len() && t[j] != '}' && t[j] != '{'
                invariant
                    i + 1 <= j <= t@.len(),
                    i < t@.len(),
                    close_pos(t@, i + 1) == close_pos(t@, j as int),
                decreases t@.len() - j,
            {
                j = j + 1;
            }
            let mut replaced = false;
            if j < t.len() && t[j] == '}' {
                proof {
                    assert(close_pos(t@, i + 1) == Some(j as int));
                }
                // Collect the candidate key between the braces.
                let mut key: Vec<char> = Vec::new();
                let mut k: usize = i + 1;
                while k < j
                    invariant
                        i + 1 <= k <= j <= t@.len(),
                        key@ == t@.subrange(i + 1, k as int),
                    decreases j - k,
                {
                    key.push(t[k]);
                    proof {
                        assert(key@ =~= t@.subrange(i + 1, k + 1));
                    }
                    k = k + 1;
                }
                match vars.get(&key) {
                    Some(val) => {
                        let ghost out_before = out@;
                        let mut m: usize = 0;
                        while m < val.len()
                            invariant
                                m <= val@.len(),
                                out@ == out_before + val@.take(m as int),
                            decreases val@.len() - m,
                        {
                            out.push(val[m]);
                            proof {
                                assert(out@ =~= out_before + val@.take(m + 1));
                            }
                            m = m + 1;
                        }
                        proof {
                            assert(val@.take(val@.len() as int) =~= val@);
                            assert(render_from(t@, vars@, i as int) == vars@[t@.subrange(
                                i + 1,
                                j as int,
                            )] + render_from(t@, vars@, j + 1));
                            assert(out@ + render_from(t@, vars@, j + 1) =~= out_at_entry + (
                            vars@[t@.subrange(i + 1, j as int)] + render_from(t@, vars@, j + 1)));
                        }
                        i = j + 1;
                        replaced = true;
                    },
                    None => {
                    },
                }
            }
            if !replaced {
                proof {
                    assert(render_from(t@, vars@, i as int) == seq!['{'] + render_from(
                        t@,
                        vars@,
                        i + 1,
                    ));
                }
                out.push('{');
                proof {
                    assert(out@ + render_from(t@, vars@, i + 1) =~= out_at_entry + (seq!['{']
                        + render_from(t@, vars@, i + 1)));
                }
                i = i + 1;
            }
        }
    }
    proof {
        assert(out@ + render_from(t@, vars@, i as int) =~= out@);
    }
    out
}

/// Renders `template` with `vars`: each `{key}` whose key is bound becomes
/// the bound value; everything else is copied through unchanged.
pub fn replace_vars(template: &str, vars: &VarMap) -> (r: String)
    ensures
        r@ == spec_render(template@, vars@),
{
    let t = str_to_chars(template);
    let out = render_chars(&t, vars);
    chars_to_string(&out)
}

/// No span of the template is a placeholder that `vars` resolves.
pub open spec fn no_resolvable_placeholder(t: Seq<char>, vars: Map<Seq<char>, Seq<char>>) -> bool {
    forall|i: int|
        0 <= i < t.len() && #[trigger] t[i] == '{' ==> (match close_pos(t, i + 1) {
            Some(j) => !vars.contains_key(t.subrange(i + 1, j)),
            None => true,
        })
}

/// A template without a `{` renders to itself, whatever the bindings are.
pub proof fn lemma_render_no_placeholders(t: Seq<char>, vars: Map<Seq<char>, Seq<char>>)
    requires
        forall|i: int| 0 <= i < t.len() ==> t[i] != '{',
    ensures
        spec_render(t, vars) == t,
{
    lemma_render_unresolved(t, vars);
}

/// Rendering is the identity on any template none of whose placeholder
/// spans matches a bound variable: unresolved and unterminated spans pass
/// through verbatim.
pub proof fn lemma_render_unresolved(t: Seq<char>, vars: Map<Seq<char>, Seq<char>>)
    requires
        no_resolvable_placeholder(t, vars),
    ensures
        spec_render(t, vars) == t,
{
    lemma_render_literal_from(t, vars, 0);
    assert(t.subrange(0, t.len() as int) =~= t);
}

/// From any position of such a template, rendering copies the rest.
proof fn lemma_render_literal_from(t: Seq<char>, vars: Map<Seq<char>, Seq<char>>, i: int)
    requires
        0 <= i <= t.len(),
        no_resolvable_placeholder(t, vars),
    ensures
        render_from(t, vars, i) == t.subrange(i, t.len() as int),
    decreases t.len() - i,
{
    if i < t.len() {
        lemma_render_literal_from(t, vars, i + 1);
        assert(seq![t[i]] + t.subrange(i + 1, t.len() as int) =~= t.subrange(i, t.len() as int));
        if t[i] == '{' {
            match close_pos(t, i + 1) {
                Some(j) => {
                    assert(!vars.contains_key(t.subrange(i + 1, j)));
                    assert(seq!['{'] + t.subrange(i + 1, t.len() as int) =~= t.subrange(
                        i,
                        t.len() as int,
                    ));
                },
                None => {
                    assert(seq!['{'] + t.subrange(i + 1, t.len() as int) =~= t.subrange(
                        i,
                        t.len() as int,
                    ));
                },
            }
        }
    } else {
        assert(t.subrange(i, t.len() as int) =~= Seq::<char>::empty());
    }
}

} // verus!
