use vstd::prelude::*;

use crate::defines::MacroTable;
use crate::macro_text::push_char;

verus! {

/// Conditions of the branches of a conditional group, in order: that of the
/// first branch (`` `ifdef`` holds when its name is defined, `` `ifndef``
/// when it is not), then one per `` `elsif``, which holds when its name is
/// defined.
pub open spec fn branch_conditions(
    defined: Set<Seq<char>>,
    negate: bool,
    name: Seq<char>,
    elsif_names: Seq<Seq<char>>,
) -> Seq<bool> {
    seq![defined.contains(name) != negate] + elsif_names.map_values(|n: Seq<char>| defined.contains(n))
}

/// Branch `i` is the one kept: its condition is the first that holds.
pub open spec fn branch_kept(conds: Seq<bool>, i: int) -> bool {
    &&& 0 <= i < conds.len()
    &&& conds[i]
    &&& forall|j: int| 0 <= j < i ==> !conds[j]
}

/// Some condition holds.
pub open spec fn any_holds(conds: Seq<bool>) -> bool {
    exists|j: int| 0 <= j < conds.len() && conds[j]
}

/// Which bodies of a conditional group are skipped: the first branch's, each
/// `` `elsif``'s, and the `` `else``'s.
pub struct BranchSkips {
    pub skip_if: bool,
    pub skip_elsif: Vec<bool>,
    pub skip_else: bool,
}

/// Decides which bodies of an `` `ifdef`` (or, when `negate`, `` `ifndef``)
/// group to skip: every body but that of the first branch whose condition
/// holds, and the `` `else`` body when some condition holds.
pub fn select_branches(
    table: &MacroTable,
    negate: bool,
    name: &String,
    elsif_names: &Vec<String>,
    has_else: bool,
) -> (r: BranchSkips)
    requires
        table.wf(),
    ensures
        ({
            let conds = branch_conditions(table@.dom(), negate, name@, elsif_names.deep_view());
            &&& r.skip_elsif@.len() == elsif_names@.len()
            &&& r.skip_if == !branch_kept(conds, 0)
            &&& forall|k: int| 0 <= k < r.skip_elsif@.len() ==> #[trigger] r.skip_elsif@[k] == !branch_kept(conds, k + 1)
            &&& r.skip_else == (has_else && any_holds(conds))
        }),
{
    let ghost conds = branch_conditions(table@.dom(), negate, name@, elsif_names.deep_view());
    let first = table.contains(name) != negate;
    let mut hit = first;
    let mut skip_elsif: Vec<bool> = Vec::new();
    let n = elsif_names.len();
    proof {
        assert(conds[0] == first);
    }
    for k in 0..n
        invariant
            n == elsif_names@.len(),
            table.wf(),
            conds == branch_conditions(table@.dom(), negate, name@, elsif_names.deep_view()),
            conds.len() == n + 1,
            skip_elsif@.len() == k,
            hit == (exists|j: int| 0 <= j <= k && conds[j]),
            forall|m: int| 0 <= m < k ==> #[trigger] skip_elsif@[m] == !branch_kept(conds, m + 1),
    {
        let defined = table.contains(&elsif_names[k]);
        proof {
            assert(conds[k + 1] == defined);
        }
        if hit {
            skip_elsif.push(true);
        } else if defined {
            hit = true;
            skip_elsif.push(false);
            proof {
                assert(branch_kept(conds, k + 1));
            }
        } else {
            skip_elsif.push(true);
        }
        proof {
            if hit {
                if conds[k + 1] {
                    assert(exists|j: int| 0 <= j <= k + 1 && conds[j]);
                }
            }
            assert(hit == (exists|j: int| 0 <= j <= k + 1 && conds[j])) by {
                if exists|j: int| 0 <= j <= k + 1 && conds[j] {
                    let j = choose|j: int| 0 <= j <= k + 1 && conds[j];
                    if j < k + 1 {
                        assert(exists|j: int| 0 <= j <= k && conds[j]);
                    }
                }
            }
        }
    }
    let skip_else = has_else && hit;
    proof {
        assert(any_holds(conds) == hit) by {
            if any_holds(conds) {
                let j = choose|j: int| 0 <= j < conds.len() && conds[j];
                assert(0 <= j <= n && conds[j]);
            }
        }
    }
    BranchSkips { skip_if: !first, skip_elsif, skip_else }
}

/// Directory `i` is where an include is looked up: the name is relative and
/// names no existing file, and `i` is the first include directory under which
/// it exists.
pub open spec fn include_dir_chosen(relative: bool, exists: bool, found_in: Seq<bool>, i: int) -> bool {
    &&& relative && !exists
    &&& 0 <= i < found_in.len()
    &&& found_in[i]
    &&& forall|j: int| 0 <= j < i ==> !found_in[j]
}

/// Where the file an include names is taken from: `Some(i)` for the include
/// directory `i` (see [`include_dir_chosen`]), `None` for the name as it is.
/// `relative` and `exists` tell of the name itself, `found_in[i]` whether it
/// exists under include directory `i`.
pub fn include_dir_choice(relative: bool, exists: bool, found_in: &Vec<bool>) -> (r: Option<usize>)
    ensures
        match r {
            Some(i) => include_dir_chosen(relative, exists, found_in@, i as int),
            None => forall|i: int| !include_dir_chosen(relative, exists, found_in@, i),
        },
{
    if !relative || exists {
        return None;
    }
    let n = found_in.len();
    for i in 0..n
        invariant
            n == found_in@.len(),
            relative && !exists,
            forall|j: int| 0 <= j < i ==> !found_in@[j],
    {
        if found_in[i] {
            return Some(i);
        }
    }
    None
}

/// `s` without the leading characters equal to `c`.
pub open spec fn trim_start(s: Seq<char>, c: char) -> Seq<char>
    decreases s.len(),
{
    if s.len() > 0 && s[0] == c {
        trim_start(s.skip(1), c)
    } else {
        s
    }
}

/// `s` without the trailing characters equal to `c`.
pub open spec fn trim_end(s: Seq<char>, c: char) -> Seq<char>
    decreases s.len(),
{
    if s.len() > 0 && s.last() == c {
        trim_end(s.drop_last(), c)
    } else {
        s
    }
}

/// The file name an `` `include`` names: its literal without the enclosing
/// `<`/`>` (when `angle`) or double quotes.
pub open spec fn include_name(literal: Seq<char>, angle: bool) -> Seq<char> {
    if angle {
        trim_end(trim_start(literal, '<'), '>')
    } else {
        trim_end(trim_start(literal, '"'), '"')
    }
}

proof fn lemma_trim_start(s: Seq<char>, c: char, lo: int)
    requires
        0 <= lo <= s.len(),
        forall|j: int| 0 <= j < lo ==> s[j] == c,
        lo == s.len() || s[lo] != c,
    ensures
        trim_start(s, c) == s.skip(lo),
    decreases lo,
{
    if lo == 0 {
        assert(s.skip(0) =~= s);
    } else {
        let t = s.skip(1);
        assert forall|j: int| 0 <= j < lo - 1 implies t[j] == c by {
            assert(t[j] == s[j + 1]);
        }
        if lo < s.len() {
            assert(t[lo - 1] == s[lo]);
        }
        lemma_trim_start(t, c, lo - 1);
        assert(t.skip(lo - 1) =~= s.skip(lo));
    }
}

proof fn lemma_trim_end(s: Seq<char>, c: char, hi: int)
    requires
        0 <= hi <= s.len(),
        forall|j: int| hi <= j < s.len() ==> s[j] == c,
        hi == 0 || s[hi - 1] != c,
    ensures
        trim_end(s, c) == s.take(hi),
    decreases s.len() - hi,
{
    if hi == s.len() {
        assert(s.take(hi) =~= s);
    } else {
        let t = s.drop_last();
        assert forall|j: int| hi <= j < t.len() implies t[j] == c by {
            assert(t[j] == s[j]);
        }
        if hi > 0 {
            assert(t[hi - 1] == s[hi - 1]);
        }
        lemma_trim_end(t, c, hi);
        assert(t.take(hi) =~= s.take(hi));
    }
}

/// Drops the leading `open` characters and trailing `close` characters.
fn trim_both(s: &str, open: char, close: char) -> (r: String)
    ensures
        r@ == trim_end(trim_start(s@, open), close),
{
    let mut chars: Vec<char> = Vec::new();
    for c in it: s.chars()
        invariant
            it.seq() == s@,
            chars@ == s@.take(it.index() as int),
    {
        chars.push(c);
        proof {
            assert(s@.take(it.index() + 1) =~= s@.take(it.index() as int).push(c));
        }
    }
    proof {
        assert(s@.take(s@.len() as int) =~= s@);
    }
    let n = chars.len();
    let mut lo: usize = 0;
    while lo < n && chars[lo] == open
        invariant
            lo <= n,
            n == chars@.len(),
            forall|j: int| 0 <= j < lo ==> chars@[j] == open,
        decreases n - lo,
    {
        lo = lo + 1;
    }
    proof {
        lemma_trim_start(chars@, open, lo as int);
    }
    let ghost t = chars@.skip(lo as int);
    let mut hi: usize = n;
    while hi > lo && chars[hi - 1] == close
        invariant
            lo <= hi <= n,
            n == chars@.len(),
            forall|j: int| hi <= j < n ==> chars@[j] == close,
        decreases hi,
    {
        hi = hi - 1;
    }
    proof {
        assert forall|j: int| hi - lo <= j < t.len() implies t[j] == close by {
            assert(t[j] == chars@[j + lo]);
        }
        if hi > lo {
            assert(t[hi - lo - 1] == chars@[hi - 1]);
        }
        lemma_trim_end(t, close, hi - lo);
    }
    let mut r = String::new();
    let mut i = lo;
    while i < hi
        invariant
            lo <= i <= hi <= n,
            n == chars@.len(),
            r@ == chars@.subrange(lo as int, i as int),
        decreases hi - i,
    {
        push_char(&mut r, chars[i]);
        proof {
            assert(chars@.subrange(lo as int, i + 1) =~= chars@.subrange(lo as int, i as int).push(chars@[i as int]));
        }
        i = i + 1;
    }
    proof {
        assert(t.take(hi - lo) =~= chars@.subrange(lo as int, hi as int));
    }
    r
}

/// The file name an `` `include`` with literal `literal` names; `angle` when
/// the literal is enclosed in `<` and `>`, else it is in double quotes.
pub fn include_file_name(literal: &str, angle: bool) -> (r: String)
    ensures
        r@ == include_name(literal@, angle),
{
    if angle {
        trim_both(literal, '<', '>')
    } else {
        trim_both(literal, '"', '"')
    }
}

} // verus!
