use std::path::PathBuf;
use vstd::prelude::*;

use crate::directives::{
    any_holds, branch_conditions, branch_kept, include_dir_chosen, include_name, trim_end, trim_start,
};
use crate::macro_text::{
    char_runs, is_ident_char, lemma_char_runs_nonempty, split_pieces, strip_double_backticks,
};
use crate::defines::MacroTable;
use crate::macros::{expansion, MacroDefinitionView};
use crate::preprocessed::{
    empty_view, merge_view, push_view, pushed_sources, PreprocessedText, PreprocessedTextView,
};
use crate::preprocessor::{
    directive_effect, step_effect, Action, Directive, Event, PreprocessorView,
};
use crate::range::Range;
use crate::utf8_len::{byte_len, lemma_encode_concat};
use vstd::utf8::encode_utf8;

verus! {

/// A well-formed text gives an origin to every one of its bytes and to no
/// position past its end.
pub proof fn origins_cover_text(t: PreprocessedText, pos: int)
    requires
        t.wf(),
        0 <= pos,
    ensures
        (pos < t@.sources.len()) == (pos < t.byte_len()),
{
    t.lemma_wf_sources_len();
}

/// After pushing `s` from `origin_range` of `path` onto a text of `n` bytes,
/// byte `n + k` of the result comes from position `origin_range.begin + k`
/// of `path`, and every earlier byte keeps its origin.
pub proof fn pushed_bytes_trace_back(
    before: PreprocessedTextView,
    after: PreprocessedTextView,
    s: Seq<char>,
    path: PathBuf,
    origin_range: Range,
    pos: int,
)
    requires
        after.sources == before.sources + pushed_sources(path, origin_range, byte_len(s)),
        0 <= pos < after.sources.len(),
    ensures
        pos < before.sources.len() ==> after.sources[pos] == before.sources[pos],
        pos >= before.sources.len() ==> after.sources[pos] == (
            path,
            origin_range.begin + (pos - before.sources.len()),
        ),
{
}

/// After merging `other` into a text of `n` bytes, byte `n + k` of the result
/// has the origin of byte `k` of `other`, and every earlier byte keeps its
/// origin.
pub proof fn merged_bytes_trace_back(
    before: PreprocessedTextView,
    other: PreprocessedTextView,
    after: PreprocessedTextView,
    pos: int,
)
    requires
        after.sources == before.sources + other.sources,
        0 <= pos < after.sources.len(),
    ensures
        pos < before.sources.len() ==> after.sources[pos] == before.sources[pos],
        pos >= before.sources.len() ==> after.sources[pos] == other.sources[pos - before.sources.len()],
{
}

/// The value after pushing each of `pushes` (text, file, range) in turn onto `v`.
pub open spec fn pushes_view(
    v: PreprocessedTextView,
    pushes: Seq<(Seq<char>, PathBuf, Range)>,
) -> PreprocessedTextView
    decreases pushes.len(),
{
    if pushes.len() == 0 {
        v
    } else {
        let (s, p, r) = pushes.last();
        push_view(pushes_view(v, pushes.drop_last()), s, p, r)
    }
}

/// Merging a text built by pushes into `a` gives what doing the same pushes
/// directly onto `a` gives: the same text and the same origin for every byte.
pub proof fn merging_pushes_is_pushing(a: PreprocessedTextView, pushes: Seq<(Seq<char>, PathBuf, Range)>)
    ensures
        merge_view(a, pushes_view(empty_view(), pushes)) == pushes_view(a, pushes),
    decreases pushes.len(),
{
    if pushes.len() == 0 {
        assert(a.text + Seq::<char>::empty() =~= a.text);
        assert(a.sources + Seq::<(PathBuf, int)>::empty() =~= a.sources);
    } else {
        let (s, p, r) = pushes.last();
        merging_pushes_is_pushing(a, pushes.drop_last());
        let b = pushes_view(empty_view(), pushes.drop_last());
        assert(a.text + (b.text + s) =~= (a.text + b.text) + s);
        assert(a.sources + (b.sources + pushed_sources(p, r, byte_len(s))) =~= (a.sources + b.sources)
            + pushed_sources(p, r, byte_len(s)));
    }
}

/// A source-text step whose text is the bytes of `file` in `range` (as
/// `source_text` builds it) appends those bytes: every new byte of the output
/// traces back to the file being read, and equals the byte of `file` at the
/// position its origin names.
pub proof fn source_bytes_trace_back(
    old: PreprocessorView,
    new: PreprocessorView,
    file: Seq<char>,
    text: String,
    range: Range,
    a: Action,
    pos: int,
)
    requires
        !old.skipping,
        old.output.sources.len() == byte_len(old.output.text),
        range.begin <= range.end <= encode_utf8(file).len(),
        encode_utf8(text@) == encode_utf8(file).subrange(range.begin as int, range.end as int),
        directive_effect(old, new, Directive::SourceText { text, range }, a),
        byte_len(old.output.text) <= pos < byte_len(new.output.text),
    ensures
        new.output.sources[pos].0 == old.path,
        0 <= new.output.sources[pos].1 < encode_utf8(file).len(),
        encode_utf8(new.output.text)[pos] == encode_utf8(file)[new.output.sources[pos].1],
{
    let n = byte_len(old.output.text) as int;
    lemma_encode_concat(old.output.text, text@);
    assert(new.output.sources[pos] == pushed_sources(old.path, range, byte_len(text@))[pos - n]);
    assert(encode_utf8(new.output.text)[pos] == encode_utf8(text@)[pos - n]);
}

/// Pushing an empty text changes neither the text nor any origin.
pub proof fn empty_push_is_invisible(v: PreprocessedTextView, path: PathBuf, origin_range: Range)
    ensures
        push_view(v, Seq::empty(), path, origin_range) == v,
{
    assert(v.text + Seq::<char>::empty() =~= v.text);
    assert(pushed_sources(path, origin_range, byte_len(Seq::<char>::empty())) =~= Seq::<(PathBuf, int)>::empty());
    assert(v.sources + Seq::<(PathBuf, int)>::empty() =~= v.sources);
}

/// Merging an empty text changes neither the text nor any origin.
pub proof fn empty_merge_is_invisible(v: PreprocessedTextView)
    ensures
        merge_view(v, empty_view()) == v,
{
    assert(v.text + Seq::<char>::empty() =~= v.text);
    assert(v.sources + Seq::<(PathBuf, int)>::empty() =~= v.sources);
}

/// Of the branches of a conditional group, at most one is kept, and when
/// the group has an `` `else``, exactly one of its branches and its else is
/// kept.
pub proof fn one_branch_kept(conds: Seq<bool>, i: int, j: int)
    ensures
        branch_kept(conds, i) && branch_kept(conds, j) ==> i == j,
        any_holds(conds) <==> exists|k: int| branch_kept(conds, k),
{
    if any_holds(conds) {
        let k = choose|k: int| 0 <= k < conds.len() && conds[k];
        lemma_first_holding(conds, k);
    }
}

proof fn lemma_first_holding(conds: Seq<bool>, k: int)
    requires
        0 <= k < conds.len(),
        conds[k],
    ensures
        exists|m: int| branch_kept(conds, m),
    decreases k,
{
    if forall|j: int| 0 <= j < k ==> !conds[j] {
        assert(branch_kept(conds, k));
    } else {
        let j = choose|j: int| 0 <= j < k && conds[j];
        lemma_first_holding(conds, j);
    }
}

/// Flattening a sequence of pieces.
pub open spec fn concat_all(pieces: Seq<Seq<char>>) -> Seq<char>
    decreases pieces.len(),
{
    if pieces.len() == 0 {
        Seq::empty()
    } else {
        concat_all(pieces.drop_last()) + pieces.last()
    }
}

proof fn lemma_concat_push(pieces: Seq<Seq<char>>, p: Seq<char>)
    ensures
        concat_all(pieces.push(p)) == concat_all(pieces) + p,
{
    assert(pieces.push(p).drop_last() =~= pieces);
}

/// The runs of a text, one after the other, give the text back.
pub proof fn runs_rebuild_text(s: Seq<char>)
    ensures
        concat_all(char_runs(s)) == s,
    decreases s.len(),
{
    if s.len() > 0 {
        let t = s.drop_last();
        runs_rebuild_text(t);
        let r = char_runs(t);
        let c = s.last();
        if s.len() >= 2 && crate::macro_text::is_ident_char(c) == crate::macro_text::is_ident_char(
            s[s.len() - 2],
        ) {
            lemma_char_runs_nonempty(t);
            let u = r.update(r.len() - 1, r.last().push(c));
            assert(u =~= r.drop_last().push(r.last().push(c)));
            assert(r =~= r.drop_last().push(r.last()));
            lemma_concat_push(r.drop_last(), r.last());
            lemma_concat_push(r.drop_last(), r.last().push(c));
            assert(concat_all(r.drop_last()) + r.last().push(c) =~= (concat_all(r.drop_last())
                + r.last()).push(c));
            assert(t.push(c) =~= s);
        } else {
            lemma_concat_push(r, seq![c]);
            assert(t + seq![c] =~= s);
        }
    }
}

/// The pieces `split_text` returns, one after the other, give the text back.
pub proof fn split_pieces_rebuild_text(s: Seq<char>)
    ensures
        concat_all(split_pieces(s)) == s,
{
    runs_rebuild_text(s);
    let r = char_runs(s);
    if s.len() > 0 && crate::macro_text::is_ident_char(s[0]) {
        lemma_concat_prepend_empty(r);
    } else {
        assert(Seq::<Seq<char>>::empty() + r =~= r);
    }
}

proof fn lemma_concat_prepend_empty(pieces: Seq<Seq<char>>)
    ensures
        concat_all(seq![Seq::<char>::empty()] + pieces) == concat_all(pieces),
    decreases pieces.len(),
{
    if pieces.len() == 0 {
        assert(seq![Seq::<char>::empty()] + pieces =~= seq![Seq::<char>::empty()]);
        assert(seq![Seq::<char>::empty()].drop_last() =~= Seq::<Seq<char>>::empty());
        assert(Seq::<char>::empty() + Seq::<char>::empty() =~= Seq::<char>::empty());
        assert(concat_all(seq![Seq::<char>::empty()]) == concat_all(Seq::<Seq<char>>::empty()) + Seq::<char>::empty());
    } else {
        let q = seq![Seq::<char>::empty()] + pieces;
        assert(q.drop_last() =~= seq![Seq::<char>::empty()] + pieces.drop_last());
        assert(q.last() == pieces.last());
        lemma_concat_prepend_empty(pieces.drop_last());
    }
}

/// A step never removes output: the output before is a prefix of the
/// output after, and so are the byte origins.
pub proof fn output_only_grows(old: PreprocessorView, new: PreprocessorView, event: Event, a: Action)
    requires
        step_effect(old, new, event, a),
    ensures
        new.output.text.take(old.output.text.len() as int) == old.output.text,
        new.output.sources.take(old.output.sources.len() as int) == old.output.sources,
{
    assert(old.output.text.take(old.output.text.len() as int) =~= old.output.text);
    assert(old.output.sources.take(old.output.sources.len() as int) =~= old.output.sources);
    match event {
        Event::Directive(d) => {
            if !old.skipping {
                match d {
                    Directive::SourceText { text, range } => {
                        assert(new.output.text.take(old.output.text.len() as int) =~= old.output.text);
                        assert(new.output.sources.take(old.output.sources.len() as int)
                            =~= old.output.sources);
                    },
                    Directive::MacroUse { name, args } => {
                        assert(new.output.text.take(old.output.text.len() as int) =~= old.output.text);
                        assert(new.output.sources.take(old.output.sources.len() as int)
                            =~= old.output.sources);
                    },
                    _ => {},
                }
            }
        },
        _ => {},
    }
}

/// Inside a skipped body, a directive changes nothing.
pub proof fn skipped_directive_is_ignored(old: PreprocessorView, new: PreprocessorView, d: Directive, a: Action)
    requires
        old.skipping,
        step_effect(old, new, Event::Directive(d), a),
    ensures
        new == old,
        a is Continue,
{
}

/// A macro defined in a file and then used, outside skipped bodies, appends
/// its expansion, traced back to the macro's body in that file.
pub proof fn define_then_use(
    s0: PreprocessorView,
    s1: PreprocessorView,
    s2: PreprocessorView,
    name: String,
    definition: crate::macros::MacroDefinition,
    use_name: String,
    args: Vec<String>,
    a1: Action,
    a2: Action,
)
    requires
        !s0.skipping,
        directive_effect(s0, s1, Directive::Define { name, definition }, a1),
        step_effect(s1, s2, Event::Directive(Directive::MacroUse { name: use_name, args }), a2),
        use_name@ == name@,
    ensures
        s2.output.text == s0.output.text + expansion(definition@, args.deep_view()),
        s2.output.sources == s0.output.sources + pushed_sources(
            s0.path,
            (definition@.body->0).1,
            byte_len(expansion(definition@, args.deep_view())),
        ),
{
    assert(s1.defines[name@] == Some((definition@, s0.path)));
}

/// A name undefined by `` `undef`` is no longer defined.
pub proof fn undefine_removes(old: PreprocessorView, new: PreprocessorView, name: String, a: Action)
    requires
        !old.skipping,
        directive_effect(old, new, Directive::Undefine(name), a),
    ensures
        !new.defines.dom().contains(name@),
        forall|k: Seq<char>| k != name@ ==> #[trigger] new.defines.dom().contains(k) == old.defines.dom().contains(k),
{
}

/// Two backticks next to each other somewhere in `s`.
pub open spec fn has_double_backtick(s: Seq<char>) -> bool {
    exists|i: int| 0 <= i < s.len() - 1 && #[trigger] s[i] == '`' && s[i + 1] == '`'
}

proof fn lemma_strip_keeps_first(t: Seq<char>)
    requires
        t.len() > 0,
        t[0] != '`',
    ensures
        strip_double_backticks(t).len() > 0,
        strip_double_backticks(t)[0] == t[0],
{
}

/// Removing double backticks leaves no two backticks next to each other.
pub proof fn no_double_backtick_left(s: Seq<char>)
    ensures
        !has_double_backtick(strip_double_backticks(s)),
    decreases s.len(),
{
    if s.len() == 0 {
    } else if s.len() >= 2 && s[0] == '`' && s[1] == '`' {
        no_double_backtick_left(s.skip(2));
    } else {
        let rest = s.skip(1);
        no_double_backtick_left(rest);
        let r = strip_double_backticks(rest);
        let out = seq![s[0]] + r;
        assert(strip_double_backticks(s) == out);
        if rest.len() > 0 && s[0] == '`' {
            assert(rest[0] == s[1]);
            lemma_strip_keeps_first(rest);
        }
        if has_double_backtick(out) {
            let i = choose|i: int| 0 <= i < out.len() - 1 && #[trigger] out[i] == '`' && out[i + 1] == '`';
            if i > 0 {
                assert(r[i - 1] == out[i] && r[i] == out[i + 1]);
                assert(has_double_backtick(r));
            } else {
                assert(out[1] == r[0]);
            }
        }
    }
}

/// A name just defined reads back as what it was defined as, and defining
/// it leaves every other name as it was.
pub proof fn insert_reads_back(
    before: MacroTable,
    after: MacroTable,
    name: Seq<char>,
    value: Option<(MacroDefinitionView, PathBuf)>,
    other: Seq<char>,
)
    requires
        after@ == before@.insert(name, value),
    ensures
        after@.dom().contains(name),
        after@[name] == value,
        other != name ==> after@.dom().contains(other) == before@.dom().contains(other),
        other != name && before@.dom().contains(other) ==> after@[other] == before@[other],
{
}

/// After clearing, no name is defined.
pub proof fn cleared_table_defines_nothing(after: MacroTable, name: Seq<char>)
    requires
        after@ == Map::<Seq<char>, Option<(MacroDefinitionView, PathBuf)>>::empty(),
    ensures
        !after@.dom().contains(name),
{
}

/// The bytes a macro use appends trace back to the macro's body in the file
/// stored with its definition, which need not be the file being read: byte
/// `n + k` of the output comes from position `body.begin + k` of that file.
pub proof fn expansion_traces_back_to_defining_file(
    old: PreprocessorView,
    new: PreprocessorView,
    name: String,
    args: Vec<String>,
    a: Action,
    def: MacroDefinitionView,
    def_path: PathBuf,
    pos: int,
)
    requires
        directive_effect(old, new, Directive::MacroUse { name, args }, a),
        old.defines.dom().contains(name@),
        old.defines[name@] == Some((def, def_path)),
        old.output.sources.len() <= pos < new.output.sources.len(),
    ensures
        new.output.sources[pos] == (
            def_path,
            (def.body->0).1.begin + (pos - old.output.sources.len()),
        ),
{
}

/// The first branch of a conditional group is kept exactly when its name is
/// defined (for `` `ifdef``) or undefined (for `` `ifndef``); an `` `elsif``
/// body is kept exactly when its own name is defined, under `` `ifdef`` and
/// `` `ifndef`` alike, and neither the first branch nor an earlier
/// `` `elsif`` was kept; some branch is kept exactly when one of these holds.
pub proof fn branches_kept_by_definedness(
    defined: Set<Seq<char>>,
    negate: bool,
    name: Seq<char>,
    elsif_names: Seq<Seq<char>>,
    k: int,
)
    requires
        0 <= k < elsif_names.len(),
    ensures
        branch_kept(branch_conditions(defined, negate, name, elsif_names), 0) == if negate {
            !defined.contains(name)
        } else {
            defined.contains(name)
        },
        branch_kept(branch_conditions(defined, negate, name, elsif_names), k + 1) == (
            defined.contains(elsif_names[k])
            && (if negate { defined.contains(name) } else { !defined.contains(name) })
            && forall|j: int| 0 <= j < k ==> !defined.contains(#[trigger] elsif_names[j])),
        any_holds(branch_conditions(defined, negate, name, elsif_names)) == (
            (if negate { !defined.contains(name) } else { defined.contains(name) })
            || exists|j: int| 0 <= j < elsif_names.len() && defined.contains(#[trigger] elsif_names[j])),
{
    let conds = branch_conditions(defined, negate, name, elsif_names);
    assert(conds.len() == elsif_names.len() + 1);
    assert(conds[0] == (defined.contains(name) != negate));
    assert forall|j: int| 0 <= j < elsif_names.len() implies conds[j + 1] == defined.contains(
        #[trigger] elsif_names[j],
    ) by {}
    if branch_kept(conds, k + 1) {
        assert forall|j: int| 0 <= j < k implies !defined.contains(#[trigger] elsif_names[j]) by {
            assert(!conds[j + 1]);
        }
        assert(!conds[0]);
    }
    if defined.contains(elsif_names[k]) && (if negate { defined.contains(name) } else {
        !defined.contains(name)
    }) && forall|j: int| 0 <= j < k ==> !defined.contains(#[trigger] elsif_names[j]) {
        assert forall|j: int| 0 <= j < k + 1 implies !conds[j] by {
            if j > 0 {
                assert(!defined.contains(elsif_names[j - 1]));
            }
        }
    }
    if any_holds(conds) {
        let j = choose|j: int| 0 <= j < conds.len() && conds[j];
        if j > 0 {
            assert(defined.contains(elsif_names[j - 1]));
        }
    }
    if exists|j: int| 0 <= j < elsif_names.len() && defined.contains(#[trigger] elsif_names[j]) {
        let j = choose|j: int| 0 <= j < elsif_names.len() && defined.contains(#[trigger] elsif_names[j]);
        assert(conds[j + 1]);
    }
    if conds[0] {
        assert(any_holds(conds));
    }
}

/// A relative include name that does not name a file as given is looked up
/// in the include directories in order: the directory chosen is the first one
/// that has the file, so directory 0 whenever it has it, and one is chosen
/// exactly when some directory has the file. Otherwise no directory is chosen.
pub proof fn include_takes_first_directory_with_file(
    relative: bool,
    exists: bool,
    found_in: Seq<bool>,
    i: int,
)
    ensures
        include_dir_chosen(relative, exists, found_in, i) == (relative && !exists && 0 <= i < found_in.len()
            && found_in[i] && forall|j: int| 0 <= j < i ==> !#[trigger] found_in[j]),
        relative && !exists && found_in.len() > 0 && found_in[0] ==> include_dir_chosen(
            relative,
            exists,
            found_in,
            0,
        ),
        relative && !exists && (exists|j: int| 0 <= j < found_in.len() && #[trigger] found_in[j])
            ==> exists|m: int| include_dir_chosen(relative, exists, found_in, m),
{
    if relative && !exists && (exists|j: int| 0 <= j < found_in.len() && #[trigger] found_in[j]) {
        let j = choose|j: int| 0 <= j < found_in.len() && #[trigger] found_in[j];
        lemma_first_found(relative, exists, found_in, j);
    }
}

proof fn lemma_first_found(relative: bool, exists: bool, found_in: Seq<bool>, k: int)
    requires
        relative && !exists,
        0 <= k < found_in.len(),
        found_in[k],
    ensures
        exists|m: int| include_dir_chosen(relative, exists, found_in, m),
    decreases k,
{
    if forall|j: int| 0 <= j < k ==> !#[trigger] found_in[j] {
        assert(include_dir_chosen(relative, exists, found_in, k));
    } else {
        let j = choose|j: int| 0 <= j < k && #[trigger] found_in[j];
        lemma_first_found(relative, exists, found_in, j);
    }
}

/// Exactly the ASCII letters, the ASCII digits and `_` are identifier
/// characters.
pub proof fn identifier_chars_are_ascii_alphanumeric_or_underscore(c: char)
    ensures
        is_ident_char(c) == (('0' as u32 <= c as u32 <= '9' as u32) || ('a' as u32 <= c as u32 <= 'z' as u32)
            || ('A' as u32 <= c as u32 <= 'Z' as u32) || c as u32 == '_' as u32),
{
}

/// A text made only of identifier characters is cut into an empty piece and
/// the whole text, so a body piece spelling a formal argument's name is found
/// whole.
pub proof fn identifier_text_is_one_piece(s: Seq<char>)
    requires
        s.len() > 0,
        forall|i: int| 0 <= i < s.len() ==> is_ident_char(#[trigger] s[i]),
    ensures
        split_pieces(s) == seq![Seq::<char>::empty(), s],
    decreases s.len(),
{
    lemma_runs_of_identifier(s);
    assert(split_pieces(s) =~= seq![Seq::<char>::empty(), s]);
}

proof fn lemma_runs_of_identifier(s: Seq<char>)
    requires
        s.len() > 0,
        forall|i: int| 0 <= i < s.len() ==> is_ident_char(#[trigger] s[i]),
    ensures
        char_runs(s) == seq![s],
    decreases s.len(),
{
    if s.len() == 1 {
        assert(s.drop_last() =~= Seq::<char>::empty());
        assert(char_runs(Seq::<char>::empty()) =~= Seq::<Seq<char>>::empty());
        assert(char_runs(s) == char_runs(s.drop_last()).push(seq![s.last()]));
        assert(seq![s.last()] =~= s);
    } else {
        let t = s.drop_last();
        assert forall|i: int| 0 <= i < t.len() implies is_ident_char(#[trigger] t[i]) by {
            assert(t[i] == s[i]);
        }
        lemma_runs_of_identifier(t);
        assert(is_ident_char(s[s.len() - 2]));
        assert(is_ident_char(s.last()));
        assert(t.push(s.last()) =~= s);
        assert(seq![t].update(0, t.push(s.last())) =~= seq![s]);
    }
}

/// An include literal loses only its delimiters: `"s"` names `s` when `s`
/// neither starts nor ends with a quote, and `<s>` names `s` when `s` neither
/// starts with `<` nor ends with `>`; nothing inside is removed.
pub proof fn include_name_keeps_inside_of_delimiters(s: Seq<char>)
    ensures
        (s.len() == 0 || (s[0] != '"' && s.last() != '"')) ==> include_name(
            seq!['"'] + s + seq!['"'],
            false,
        ) == s,
        (s.len() == 0 || (s[0] != '<' && s.last() != '>')) ==> include_name(
            seq!['<'] + s + seq!['>'],
            true,
        ) == s,
{
    lemma_strip_delimiters(s, '"', '"');
    lemma_strip_delimiters(s, '<', '>');
}

proof fn lemma_strip_delimiters(s: Seq<char>, open: char, close: char)
    ensures
        (s.len() == 0 || (s[0] != open && s.last() != close)) ==> trim_end(
            trim_start(seq![open] + s + seq![close], open),
            close,
        ) == s,
{
    if s.len() == 0 || (s[0] != open && s.last() != close) {
        let w = seq![open] + s + seq![close];
        let u = s + seq![close];
        assert(w.skip(1) =~= u);
        assert(w[0] == open);
        if s.len() > 0 {
            assert(u[0] == s[0]);
            assert(trim_start(u, open) == u);
        } else {
            assert(u =~= seq![close]);
            if close == open {
                assert(u.skip(1) =~= Seq::<char>::empty());
                assert(u[0] == open);
                assert(trim_start(Seq::<char>::empty(), open) == Seq::<char>::empty());
                assert(trim_start(u, open) == Seq::<char>::empty());
                assert(trim_end(Seq::<char>::empty(), close) == Seq::<char>::empty());
                assert(s =~= Seq::<char>::empty());
            } else {
                assert(trim_start(u, open) == u);
            }
        }
        if !(s.len() == 0 && close == open) {
            assert(u.last() == close);
            assert(u.drop_last() =~= s);
            if s.len() > 0 {
                assert(trim_end(s, close) == s);
            } else {
                assert(trim_end(s, close) == s);
            }
        }
    }
}

} // verus!
