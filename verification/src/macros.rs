use vstd::prelude::*;
use vstd::string::StringExecFns;

use crate::macro_text::{remove_double_backticks, split_pieces, split_text, strip_double_backticks};
use crate::range::Range;

verus! {

/// A text macro as a `` `define`` gives it: its formal arguments, each with
/// its default text if it has one, and its body together with the range the
/// body occupies in the defining file.
#[derive(Clone)]
pub struct MacroDefinition {
    pub params: Vec<(String, Option<String>)>,
    pub body: Option<(String, Range)>,
}

/// Abstract value of a [`MacroDefinition`].
pub ghost struct MacroDefinitionView {
    pub params: Seq<(Seq<char>, Option<Seq<char>>)>,
    pub body: Option<(Seq<char>, Range)>,
}

impl View for MacroDefinition {
    type V = MacroDefinitionView;

    open spec fn view(&self) -> MacroDefinitionView {
        MacroDefinitionView {
            params: self.params.deep_view(),
            body: match self.body {
                Some((t, r)) => Some((t@, r)),
                None => None,
            },
        }
    }
}

/// Text given to argument `i` of a macro use: the actual argument when the
/// use has one at that position, else the default of the formal argument.
pub open spec fn arg_value(
    params: Seq<(Seq<char>, Option<Seq<char>>)>,
    actuals: Seq<Seq<char>>,
    i: int,
) -> Seq<char> {
    if i < actuals.len() {
        actuals[i]
    } else {
        params[i].1->0
    }
}

/// Every formal argument gets a text: from the use, or from its default.
pub open spec fn args_bindable(
    params: Seq<(Seq<char>, Option<Seq<char>>)>,
    actuals: Seq<Seq<char>>,
) -> bool {
    forall|i: int| actuals.len() <= i < params.len() ==> (#[trigger] params[i]).1 is Some
}

/// Text bound to the name `tok`: that of the last formal argument so named.
pub open spec fn bound_value(
    params: Seq<(Seq<char>, Option<Seq<char>>)>,
    actuals: Seq<Seq<char>>,
    tok: Seq<char>,
) -> Option<Seq<char>>
    decreases params.len(),
{
    if params.len() == 0 {
        None
    } else if params.last().0 == tok {
        Some(arg_value(params, actuals, params.len() - 1))
    } else {
        bound_value(params.drop_last(), actuals, tok)
    }
}

/// Pieces of a body with every piece that names a formal argument replaced
/// by the text bound to it, and "``" removed from every other piece.
pub open spec fn substitute(
    pieces: Seq<Seq<char>>,
    params: Seq<(Seq<char>, Option<Seq<char>>)>,
    actuals: Seq<Seq<char>>,
) -> Seq<char>
    decreases pieces.len(),
{
    if pieces.len() == 0 {
        Seq::empty()
    } else {
        substitute(pieces.drop_last(), params, actuals) + match bound_value(
            params,
            actuals,
            pieces.last(),
        ) {
            Some(v) => v,
            None => strip_double_backticks(pieces.last()),
        }
    }
}

/// Text a use of macro `def` with actual arguments `actuals` expands to.
pub open spec fn expansion(def: MacroDefinitionView, actuals: Seq<Seq<char>>) -> Seq<char> {
    substitute(split_pieces((def.body->0).0), def.params, actuals)
}

proof fn lemma_bound_value_prefix(
    params: Seq<(Seq<char>, Option<Seq<char>>)>,
    actuals: Seq<Seq<char>>,
    tok: Seq<char>,
    j: int,
)
    requires
        0 <= j < params.len(),
        params[j].0 == tok,
    ensures
        bound_value(params.take(j + 1), actuals, tok) == Some(arg_value(params, actuals, j)),
{
    let p = params.take(j + 1);
    assert(p.last() == params[j]);
    if j < actuals.len() {
    } else {
        assert(p[j] == params[j]);
    }
}

proof fn lemma_bound_value_skip(
    params: Seq<(Seq<char>, Option<Seq<char>>)>,
    actuals: Seq<Seq<char>>,
    tok: Seq<char>,
    j: int,
)
    requires
        0 <= j < params.len(),
        params[j].0 != tok,
    ensures
        bound_value(params.take(j + 1), actuals, tok) == bound_value(params.take(j), actuals, tok),
{
    let p = params.take(j + 1);
    assert(p.last() == params[j]);
    assert(p.drop_last() =~= params.take(j));
}

impl MacroDefinition {
    /// Whether a use of this macro with `actuals` can be expanded: the macro
    /// has a body and every formal argument gets a text.
    pub open spec fn expandable(self, actuals: Seq<Seq<char>>) -> bool {
        &&& self@.body is Some
        &&& args_bindable(self@.params, actuals)
    }

    /// Whether a use with `actuals` can be expanded.
    pub fn can_expand(&self, actuals: &Vec<String>) -> (b: bool)
        ensures
            b == self.expandable(actuals.deep_view()),
    {
        if self.body.is_none() {
            return false;
        }
        let n = self.params.len();
        let mut i = actuals.len();
        while i < n
            invariant
                actuals.len() <= i,
                n == self.params.len(),
                forall|k: int| actuals.len() <= k < i ==> (#[trigger] self@.params[k]).1 is Some,
            decreases n - i,
        {
            if self.params[i].1.is_none() {
                proof {
                    assert(self@.params[i as int].1 is None);
                }
                return false;
            }
            i = i + 1;
        }
        true
    }

    /// Text bound to the formal argument named `tok` in a use with `actuals`.
    fn lookup_arg<'a>(&'a self, actuals: &'a Vec<String>, tok: &String) -> (r: Option<&'a String>)
        requires
            args_bindable(self@.params, actuals.deep_view()),
        ensures
            match r {
                Some(v) => bound_value(self@.params, actuals.deep_view(), tok@) == Some(v@),
                None => bound_value(self@.params, actuals.deep_view(), tok@) is None,
            },
    {
        let ghost params = self@.params;
        let ghost acts = actuals.deep_view();
        let mut j = self.params.len();
        proof {
            assert(params.take(j as int) =~= params);
        }
        while j > 0
            invariant
                j <= params.len(),
                params == self@.params,
                acts == actuals.deep_view(),
                args_bindable(params, acts),
                bound_value(params, acts, tok@) == bound_value(params.take(j as int), acts, tok@),
            decreases j,
        {
            let k = j - 1;
            let entry = &self.params[k];
            if entry.0 == *tok {
                proof {
                    assert(params[k as int].0 == tok@);
                    lemma_bound_value_prefix(params, acts, tok@, k as int);
                }
                if k < actuals.len() {
                    return Some(&actuals[k]);
                } else {
                    proof {
                        assert(params[k as int].1 is Some);
                    }
                    match &entry.1 {
                        Some(d) => {
                            return Some(d);
                        },
                        None => {
                            return None;
                        },
                    }
                }
            }
            proof {
                lemma_bound_value_skip(params, acts, tok@, k as int);
            }
            j = k;
        }
        None
    }

    /// The text a use of this macro with actual arguments `actuals` expands to.
    pub fn expand(&self, actuals: &Vec<String>) -> (r: String)
        requires
            self.expandable(actuals.deep_view()),
        ensures
            r@ == expansion(self@, actuals.deep_view()),
    {
        let body = match &self.body {
            Some((t, _)) => t,
            None => {
                return String::new();
            },
        };
        let pieces = split_text(body.as_str());
        let ghost ps = pieces.deep_view();
        let mut out = String::new();
        let n = pieces.len();
        for k in 0..n
            invariant
                n == ps.len(),
                ps == pieces.deep_view(),
                ps == split_pieces((self@.body->0).0),
                args_bindable(self@.params, actuals.deep_view()),
                out@ == substitute(ps.take(k as int), self@.params, actuals.deep_view()),
        {
            let tok = &pieces[k];
            proof {
                assert(ps.take(k + 1).drop_last() =~= ps.take(k as int));
                assert(ps.take(k + 1).last() == tok@);
            }
            match self.lookup_arg(actuals, tok) {
                Some(v) => {
                    out.append(v.as_str());
                },
                None => {
                    let t = remove_double_backticks(tok.as_str());
                    out.append(t.as_str());
                },
            }
        }
        proof {
            assert(ps.take(n as int) =~= ps);
        }
        out
    }
}

} // verus!
