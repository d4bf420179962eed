use std::path::PathBuf;
use vstd::prelude::*;

use crate::defines::{entry_view, MacroTable};
use crate::directives::{
    any_holds, branch_conditions, branch_kept, include_file_name, include_name, select_branches,
    BranchSkips,
};
use crate::macros::{args_bindable, expansion, MacroDefinition, MacroDefinitionView};
use crate::preprocessed::{copy_path, pushed_sources, PreprocessedText, PreprocessedTextView};
use crate::range::Range;
use crate::utf8_len::byte_len;
use vstd::utf8::{
    encode_utf8, encode_utf8_valid_utf8, is_char_boundary, is_char_boundary_iff_not_is_continuation_byte,
    is_char_boundary_start_end_of_seq,
};

verus! {

/// A compiler directive met in the source, with the parts of it that the
/// preprocessor reads.
pub enum Directive {
    /// `` `resetall``
    Resetall,
    /// `` `undef name``
    Undefine(String),
    /// `` `undefineall``
    Undefineall,
    /// Source text that is not a directive, and the range it occupies in the file.
    SourceText { text: String, range: Range },
    /// `` `ifdef`` (or, when `negate`, `` `ifndef``) `name`, with the names of
    /// its `` `elsif`` branches and whether it has an `` `else``.
    Conditional { negate: bool, name: String, elsif_names: Vec<String>, has_else: bool },
    /// `` `define name ...``
    Define { name: String, definition: MacroDefinition },
    /// `` `include`` with its literal, in `<`/`>` when `angle`, else in quotes.
    Include { literal: String, angle: bool },
    /// A use `` `name(args)`` of a text macro, with the texts of its actual arguments.
    MacroUse { name: String, args: Vec<String> },
}

/// The source-text directive for the bytes of `file` in `range`: its text is
/// exactly those bytes.
pub fn source_text(file: &str, range: Range) -> (d: Directive)
    requires
        range.begin <= range.end,
        is_char_boundary(encode_utf8(file@), range.begin as int),
        is_char_boundary(encode_utf8(file@), range.end as int),
    ensures
        d matches Directive::SourceText { text, range: r } && r == range && encode_utf8(text@)
            == encode_utf8(file@).subrange(range.begin as int, range.end as int),
{
    let ghost bytes = encode_utf8(file@);
    proof {
        encode_utf8_valid_utf8(file@);
        if range.end > bytes.len() {
            assert(!is_char_boundary(bytes, range.end as int));
        }
    }
    let (head, _) = file.split_at(range.end);
    proof {
        let hb = encode_utf8(head@);
        encode_utf8_valid_utf8(head@);
        assert(hb == bytes.subrange(0, range.end as int));
        if range.begin == range.end {
            is_char_boundary_start_end_of_seq(hb);
        } else if range.begin > 0 {
            is_char_boundary_iff_not_is_continuation_byte(bytes, range.begin as int);
            is_char_boundary_iff_not_is_continuation_byte(hb, range.begin as int);
            assert(hb[range.begin as int] == bytes[range.begin as int]);
        }
    }
    let (_, piece) = head.split_at(range.begin);
    proof {
        assert(encode_utf8(piece@) =~= bytes.subrange(range.begin as int, range.end as int));
    }
    Directive::SourceText { text: piece.to_owned(), range }
}

/// One step of the walk through the syntax tree of a file.
pub enum Event {
    /// Entering a directive.
    Directive(Directive),
    /// Entering another node; `marked` when the node is a body that a
    /// conditional group asked to skip.
    EnterOther { marked: bool },
    /// Leaving a node; `marked` as for [`Event::EnterOther`].
    Leave { marked: bool },
}

/// What the walk must do after a step.
pub enum Action {
    /// Go on with the next node.
    Continue,
    /// Mark the bodies of the conditional group just entered as the
    /// selection says.
    Skip(BranchSkips),
    /// Preprocess the named file with a copy of the current macros, and
    /// merge the result into this one with [`Preprocessor::merge_include`].
    Include(String),
}

/// State of the preprocessing of one file.
pub struct Preprocessor {
    path: PathBuf,
    skipping: bool,
    defines: MacroTable,
    output: PreprocessedText,
}

/// Abstract value of a [`Preprocessor`].
pub ghost struct PreprocessorView {
    pub path: PathBuf,
    pub skipping: bool,
    pub defines: Map<Seq<char>, Option<(MacroDefinitionView, PathBuf)>>,
    pub output: PreprocessedTextView,
}

impl View for Preprocessor {
    type V = PreprocessorView;

    closed spec fn view(&self) -> PreprocessorView {
        PreprocessorView {
            path: self.path,
            skipping: self.skipping,
            defines: self.defines@,
            output: self.output@,
        }
    }
}

/// A use of `name` with `args` can be expanded: `name` is defined as a macro
/// with a body, and every formal argument of it gets a text.
pub open spec fn use_expandable(
    defines: Map<Seq<char>, Option<(MacroDefinitionView, PathBuf)>>,
    name: Seq<char>,
    args: Seq<Seq<char>>,
) -> bool {
    &&& defines.dom().contains(name)
    &&& defines[name] matches Some((d, _))
    &&& d.body is Some
    &&& args_bindable(d.params, args)
}

/// The state after directive `d` is met while not skipping, and the action
/// asked for.
pub open spec fn directive_effect(
    old: PreprocessorView,
    new: PreprocessorView,
    d: Directive,
    a: Action,
) -> bool {
    &&& new.path == old.path
    &&& new.skipping == old.skipping
    &&& match d {
        Directive::Resetall | Directive::Undefineall => {
            &&& new.defines == Map::<Seq<char>, Option<(MacroDefinitionView, PathBuf)>>::empty()
            &&& new.output == old.output
            &&& a is Continue
        },
        Directive::Undefine(name) => {
            &&& new.defines == old.defines.remove(name@)
            &&& new.output == old.output
            &&& a is Continue
        },
        Directive::SourceText { text, range } => {
            &&& new.defines == old.defines
            &&& new.output.text == old.output.text + text@
            &&& new.output.sources == old.output.sources + pushed_sources(old.path, range, byte_len(text@))
            &&& a is Continue
        },
        Directive::Conditional { negate, name, elsif_names, has_else } => {
            &&& new.defines == old.defines
            &&& new.output == old.output
            &&& a matches Action::Skip(s) && {
                let conds = branch_conditions(old.defines.dom(), negate, name@, elsif_names.deep_view());
                &&& s.skip_elsif@.len() == elsif_names@.len()
                &&& s.skip_if == !branch_kept(conds, 0)
                &&& forall|k: int| 0 <= k < s.skip_elsif@.len() ==> #[trigger] s.skip_elsif@[k] == !branch_kept(conds, k + 1)
                &&& s.skip_else == (has_else && any_holds(conds))
            }
        },
        Directive::Define { name, definition } => {
            &&& new.defines == old.defines.insert(name@, Some((definition@, old.path)))
            &&& new.output == old.output
            &&& a is Continue
        },
        Directive::Include { literal, angle } => {
            &&& new.defines == old.defines
            &&& new.output == old.output
            &&& a matches Action::Include(f) && f@ == include_name(literal@, angle)
        },
        Directive::MacroUse { name, args } => {
            &&& new.defines == old.defines
            &&& old.defines[name@] matches Some((def, def_path)) && {
                let t = expansion(def, args.deep_view());
                &&& new.output.text == old.output.text + t
                &&& new.output.sources == old.output.sources + pushed_sources(def_path, (def.body->0).1, byte_len(t))
            }
            &&& a is Continue
        },
    }
}

/// The bytes that meeting directive `d` appends to the output.
pub open spec fn directive_output_len(
    defines: Map<Seq<char>, Option<(MacroDefinitionView, PathBuf)>>,
    d: Directive,
) -> nat {
    match d {
        Directive::SourceText { text, .. } => byte_len(text@),
        Directive::MacroUse { name, args } => match defines[name@] {
            Some((def, _)) => byte_len(expansion(def, args.deep_view())),
            None => 0,
        },
        _ => 0,
    }
}

/// A step with `event` may be taken: a directive met outside skipped bodies
/// leaves the output short enough to index, and a macro use can be expanded.
pub open spec fn step_allowed(old: PreprocessorView, event: Event) -> bool {
    match event {
        Event::Directive(d) => !old.skipping ==> {
            &&& byte_len(old.output.text) + directive_output_len(old.defines, d) <= usize::MAX
            &&& match d {
                Directive::MacroUse { name, args } => use_expandable(old.defines, name@, args.deep_view()),
                _ => true,
            }
        },
        _ => true,
    }
}

/// The state after a step with `event`, and the action asked for: entering a
/// marked body starts skipping, leaving one ends it, directives met while
/// skipping change nothing, and other directives act as
/// [`directive_effect`] says.
pub open spec fn step_effect(old: PreprocessorView, new: PreprocessorView, event: Event, a: Action) -> bool {
    match event {
        Event::EnterOther { marked } => {
            &&& new == (PreprocessorView { skipping: old.skipping || marked, ..old })
            &&& a is Continue
        },
        Event::Leave { marked } => {
            &&& new == (PreprocessorView { skipping: old.skipping && !marked, ..old })
            &&& a is Continue
        },
        Event::Directive(d) => if old.skipping {
            &&& new == old
            &&& a is Continue
        } else {
            directive_effect(old, new, d, a)
        },
    }
}

impl Preprocessor {
    /// The parts are well formed.
    pub closed spec fn wf(&self) -> bool {
        &&& self.defines.wf()
        &&& self.output.wf()
    }

    /// Starts the preprocessing of the file at `path` with the macros `defines`.
    pub fn new(path: PathBuf, defines: MacroTable) -> (r: Self)
        requires
            defines.wf(),
        ensures
            r.wf(),
            r@.path == path,
            !r@.skipping,
            r@.defines == defines@,
            r@.output.text == Seq::<char>::empty(),
            r@.output.sources == Seq::<(PathBuf, int)>::empty(),
    {
        Preprocessor { path, skipping: false, defines, output: PreprocessedText::new() }
    }

    /// The macros defined so far.
    pub fn defines(&self) -> (r: &MacroTable)
        requires
            self.wf(),
        ensures
            r.wf(),
            r@ == self@.defines,
    {
        &self.defines
    }

    /// Whether the walk is inside a skipped body.
    pub fn skipping(&self) -> (b: bool)
        ensures
            b == self@.skipping,
    {
        self.skipping
    }

    /// The output so far.
    pub fn output(&self) -> (r: &PreprocessedText)
        requires
            self.wf(),
        ensures
            r.wf(),
            r@ == self@.output,
    {
        &self.output
    }

    /// Whether a use of macro `name` with actual arguments `args` can be expanded.
    pub fn can_expand(&self, name: &String, args: &Vec<String>) -> (b: bool)
        requires
            self.wf(),
        ensures
            b == use_expandable(self@.defines, name@, args.deep_view()),
    {
        match self.defines.get(name) {
            Some(Some((d, _))) => d.can_expand(args),
            _ => false,
        }
    }

    /// Takes one step of the walk.
    pub fn step(&mut self, event: Event) -> (a: Action)
        requires
            old(self).wf(),
            step_allowed(old(self)@, event),
        ensures
            final(self).wf(),
            step_effect(old(self)@, final(self)@, event, a),
    {
        match event {
            Event::EnterOther { marked } => {
                if marked {
                    self.skipping = true;
                }
                Action::Continue
            },
            Event::Leave { marked } => {
                if marked {
                    self.skipping = false;
                }
                Action::Continue
            },
            Event::Directive(d) => {
                if self.skipping {
                    return Action::Continue;
                }
                self.apply(d)
            },
        }
    }

    /// Meets directive `d` outside any skipped body.
    fn apply(&mut self, d: Directive) -> (a: Action)
        requires
            old(self).wf(),
            !old(self)@.skipping,
            byte_len(old(self)@.output.text) + directive_output_len(old(self)@.defines, d) <= usize::MAX,
            match d {
                Directive::MacroUse { name, args } => use_expandable(old(self)@.defines, name@, args.deep_view()),
                _ => true,
            },
        ensures
            final(self).wf(),
            directive_effect(old(self)@, final(self)@, d, a),
    {
        match d {
            Directive::Resetall => {
                self.defines.clear();
                Action::Continue
            },
            Directive::Undefineall => {
                self.defines.clear();
                Action::Continue
            },
            Directive::Undefine(name) => {
                self.defines.remove(&name);
                Action::Continue
            },
            Directive::SourceText { text, range } => {
                let p = copy_path(&self.path);
                self.output.push(text.as_str(), p, range);
                Action::Continue
            },
            Directive::Conditional { negate, name, elsif_names, has_else } => {
                let s = select_branches(&self.defines, negate, &name, &elsif_names, has_else);
                Action::Skip(s)
            },
            Directive::Define { name, definition } => {
                let p = copy_path(&self.path);
                self.defines.insert(name, Some((definition, p)));
                Action::Continue
            },
            Directive::Include { literal, angle } => {
                Action::Include(include_file_name(literal.as_str(), angle))
            },
            Directive::MacroUse { name, args } => {
                let (text, def_path, range) = match self.defines.get(&name) {
                    Some(Some((def, def_path))) => {
                        let range = match &def.body {
                            Some((_, r)) => *r,
                            None => Range::new(0, 0),
                        };
                        (def.expand(&args), copy_path(def_path), range)
                    },
                    _ => {
                        return Action::Continue;
                    },
                };
                self.output.push(text.as_str(), def_path, range);
                Action::Continue
            },
        }
    }

    /// Appends the output of an included file.
    pub fn merge_include(&mut self, included: PreprocessedText)
        requires
            old(self).wf(),
            included.wf(),
            byte_len(old(self)@.output.text) + included.byte_len() <= usize::MAX,
        ensures
            final(self).wf(),
            final(self)@ == (PreprocessorView {
                output: (PreprocessedTextView {
                    text: old(self)@.output.text + included@.text,
                    sources: old(self)@.output.sources + included@.sources,
                }),
                ..old(self)@
            }),
    {
        self.output.merge(included);
    }

    /// Ends the preprocessing of the file, giving its output.
    pub fn finish(self) -> (r: PreprocessedText)
        requires
            self.wf(),
        ensures
            r.wf(),
            r@ == self@.output,
    {
        self.output
    }
}

} // verus!
