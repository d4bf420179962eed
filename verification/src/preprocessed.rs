use std::path::PathBuf;
use vstd::prelude::*;
use vstd::string::StringExecFns;

use crate::range::Range;
use crate::utf8_len::{byte_len, lemma_byte_len_concat, str_byte_len};

verus! {

/// `std::path::PathBuf`, carried through as an opaque value.
#[verifier::external_type_specification]
#[verifier::external_body]
pub struct ExPathBuf(PathBuf);

/// `<PathBuf as Clone>::clone`: the copy is equal to the path it copies.
#[verifier::external_body]
pub(crate) fn copy_path(p: &PathBuf) -> (r: PathBuf)
    ensures
        r == *p,
{
    p.clone()
}

/// Where one piece of the preprocessed text came from: the piece occupies
/// `range` in the output and was produced from `origin_range` of the file
/// `origin_path`.
#[derive(Debug)]
pub struct Origin {
    range: Range,
    origin_path: PathBuf,
    origin_range: Range,
}

impl Origin {
    /// Source of each byte of the piece: the file, and the position there.
    pub closed spec fn byte_sources(self) -> Seq<(PathBuf, int)> {
        Seq::new(
            (self.range.end - self.range.begin) as nat,
            |k: int| (self.origin_path, self.origin_range.begin + k),
        )
    }
}

/// Sources of the bytes covered by a sequence of pieces, in order.
pub closed spec fn sources_of(os: Seq<Origin>) -> Seq<(PathBuf, int)>
    decreases os.len(),
{
    if os.len() == 0 {
        Seq::empty()
    } else {
        sources_of(os.drop_last()) + os.last().byte_sources()
    }
}

/// The sources that a text pushed from `origin_range` of `path` gives to its
/// `len` bytes: consecutive positions starting at `origin_range.begin`.
pub open spec fn pushed_sources(path: PathBuf, origin_range: Range, len: nat) -> Seq<(PathBuf, int)> {
    Seq::new(len, |k: int| (path, origin_range.begin + k))
}

/// Abstract value of a [`PreprocessedText`]: the text, and for each of its
/// bytes the file and byte position it came from.
pub ghost struct PreprocessedTextView {
    pub text: Seq<char>,
    pub sources: Seq<(PathBuf, int)>,
}

/// The value of an empty text.
pub open spec fn empty_view() -> PreprocessedTextView {
    PreprocessedTextView { text: Seq::empty(), sources: Seq::empty() }
}

/// The value after pushing `s` from `origin_range` of `path` onto `v`.
pub open spec fn push_view(v: PreprocessedTextView, s: Seq<char>, path: PathBuf, origin_range: Range) -> PreprocessedTextView {
    PreprocessedTextView {
        text: v.text + s,
        sources: v.sources + pushed_sources(path, origin_range, byte_len(s)),
    }
}

/// The value after merging `b` into `a`.
pub open spec fn merge_view(a: PreprocessedTextView, b: PreprocessedTextView) -> PreprocessedTextView {
    PreprocessedTextView { text: a.text + b.text, sources: a.sources + b.sources }
}

/// Text produced by the preprocessor, with the origin of every piece.
#[derive(Debug)]
pub struct PreprocessedText {
    text: String,
    origins: Vec<Origin>,
}

impl View for PreprocessedText {
    type V = PreprocessedTextView;

    closed spec fn view(&self) -> PreprocessedTextView {
        PreprocessedTextView { text: self.text@, sources: sources_of(self.origins@) }
    }
}

/// The pieces lie back to back from position 0 to `len`, each with
/// `begin <= end`.
pub closed spec fn tiles(os: Seq<Origin>, len: nat) -> bool {
    &&& forall|i: int| 0 <= i < os.len() ==> (#[trigger] os[i]).range.begin <= os[i].range.end
    &&& forall|i: int|
        0 < i < os.len() ==> (#[trigger] os[i]).range.begin == os[i - 1].range.end
    &&& if os.len() == 0 {
        len == 0
    } else {
        os[0].range.begin == 0 && os.last().range.end == len
    }
}

proof fn lemma_sources_concat(a: Seq<Origin>, b: Seq<Origin>)
    ensures
        sources_of(a + b) == sources_of(a) + sources_of(b),
    decreases b.len(),
{
    if b.len() == 0 {
        assert(a + b =~= a);
        assert(sources_of(a) + sources_of(b) =~= sources_of(a));
    } else {
        assert((a + b).drop_last() =~= a + b.drop_last());
        assert((a + b).last() == b.last());
        lemma_sources_concat(a, b.drop_last());
        assert(sources_of(a + b) =~= sources_of(a) + sources_of(b));
    }
}

/// In a tiling, the bytes before piece `i` are exactly `os[i].range.begin`.
proof fn lemma_tiles_prefix(os: Seq<Origin>, len: nat, i: int)
    requires
        tiles(os, len),
        0 <= i <= os.len(),
    ensures
        sources_of(os.take(i)).len() == if i == 0 {
            0
        } else {
            os[i - 1].range.end as int
        },
    decreases i,
{
    if i > 0 {
        lemma_tiles_prefix(os, len, i - 1);
        assert(os.take(i).drop_last() =~= os.take(i - 1));
        assert(os.take(i).last() == os[i - 1]);
        if i > 1 {
            assert(os[i - 1].range.begin == os[i - 2].range.end);
        }
    }
}

/// In a tiling, the sources cover exactly `len` bytes.
proof fn lemma_tiles_len(os: Seq<Origin>, len: nat)
    requires
        tiles(os, len),
    ensures
        sources_of(os).len() == len,
{
    lemma_tiles_prefix(os, len, os.len() as int);
    assert(os.take(os.len() as int) =~= os);
}

/// Pieces of a tiling come in order.
proof fn lemma_tiles_ordered(os: Seq<Origin>, len: nat, j: int, k: int)
    requires
        tiles(os, len),
        0 <= j < k < os.len(),
    ensures
        os[j].range.end <= os[k].range.begin,
    decreases k - j,
{
    assert(os[k].range.begin == os[k - 1].range.end);
    if j < k - 1 {
        lemma_tiles_ordered(os, len, j, k - 1);
        assert(os[k - 1].range.begin <= os[k - 1].range.end);
    }
}

/// The source of a byte inside piece `i` is read off that piece.
proof fn lemma_tiles_lookup(os: Seq<Origin>, len: nat, i: int, pos: int)
    requires
        tiles(os, len),
        0 <= i < os.len(),
        os[i].range.begin <= pos < os[i].range.end,
    ensures
        pos < sources_of(os).len(),
        sources_of(os)[pos] == (os[i].origin_path, os[i].origin_range.begin + (pos - os[i].range.begin)),
{
    lemma_tiles_prefix(os, len, i);
    lemma_tiles_prefix(os, len, i + 1);
    assert(os == os.take(i + 1) + os.skip(i + 1));
    lemma_sources_concat(os.take(i + 1), os.skip(i + 1));
    assert(os.take(i + 1).drop_last() =~= os.take(i));
    assert(os.take(i + 1).last() == os[i]);
    if i > 0 {
        assert(os[i].range.begin == os[i - 1].range.end);
    }
}

impl PreprocessedText {
    /// Number of bytes of the text.
    pub open spec fn byte_len(&self) -> nat {
        byte_len(self@.text)
    }

    /// The pieces tile the whole text, whose length fits in `usize`.
    pub closed spec fn wf(&self) -> bool {
        &&& tiles(self.origins@, byte_len(self.text@))
        &&& byte_len(self.text@) <= usize::MAX
    }

    /// Every byte of a well-formed text has a source.
    pub proof fn lemma_wf_sources_len(&self)
        requires
            self.wf(),
        ensures
            self@.sources.len() == self.byte_len(),
            self.byte_len() <= usize::MAX,
    {
        lemma_tiles_len(self.origins@, byte_len(self.text@));
    }

    /// An empty text.
    pub fn new() -> (r: Self)
        ensures
            r.wf(),
            r@.text == Seq::<char>::empty(),
            r@.sources == Seq::<(PathBuf, int)>::empty(),
            r@ == empty_view(),
    {
        let r = PreprocessedText { text: String::new(), origins: Vec::new() };
        assert(r.origins@ =~= Seq::<Origin>::empty());
        r
    }

    /// Appends `s`, recording that it came from `origin_range` of `origin_path`.
    pub fn push(&mut self, s: &str, origin_path: PathBuf, origin_range: Range)
        requires
            old(self).wf(),
            old(self).byte_len() + byte_len(s@) <= usize::MAX,
        ensures
            final(self).wf(),
            final(self)@.text == old(self)@.text + s@,
            final(self)@.sources == old(self)@.sources + pushed_sources(
                origin_path,
                origin_range,
                byte_len(s@),
            ),
            final(self)@ == push_view(old(self)@, s@, origin_path, origin_range),
    {
        let ghost old_text = self.text@;
        let ghost old_os = self.origins@;
        let base = str_byte_len(self.text.as_str());
        let n = str_byte_len(s);
        self.text.append(s);
        proof {
            lemma_byte_len_concat(old_text, s@);
        }
        let range = Range::new(base, base + n);
        let origin = Origin { range, origin_path, origin_range };
        self.origins.push(origin);
        proof {
            let os = self.origins@;
            assert(os.drop_last() =~= old_os);
            assert(origin.byte_sources() =~= pushed_sources(origin_path, origin_range, byte_len(s@)));
            assert forall|i: int| 0 <= i < os.len() implies (#[trigger] os[i]).range.begin
                <= os[i].range.end by {
                if i < old_os.len() {
                    assert(os[i] == old_os[i]);
                }
            }
            assert forall|i: int| 0 < i < os.len() implies (#[trigger] os[i]).range.begin
                == os[i - 1].range.end by {
                if i < old_os.len() {
                    assert(os[i] == old_os[i]);
                    assert(os[i - 1] == old_os[i - 1]);
                } else {
                    assert(os[i - 1] == old_os[i - 1]);
                }
            }
            if old_os.len() > 0 {
                assert(os[0] == old_os[0]);
            }
        }
    }

    /// Appends the whole of `other`, keeping the origins of its pieces.
    pub fn merge(&mut self, other: PreprocessedText)
        requires
            old(self).wf(),
            other.wf(),
            old(self).byte_len() + other.byte_len() <= usize::MAX,
        ensures
            final(self).wf(),
            final(self)@.text == old(self)@.text + other@.text,
            final(self)@.sources == old(self)@.sources + other@.sources,
            final(self)@ == merge_view(old(self)@, other@),
    {
        let ghost old_text = self.text@;
        let ghost old_os = self.origins@;
        let ghost other_os = other.origins@;
        let ghost other_text = other.text@;
        let base = str_byte_len(self.text.as_str());
        self.text.append(other.text.as_str());
        proof {
            lemma_byte_len_concat(old_text, other.text@);
            lemma_tiles_len(old_os, byte_len(old_text));
        }
        let ghost total = byte_len(old_text) + byte_len(other.text@);
        for o in it: other.origins.into_iter()
            invariant
                it.seq() == other_os,
                base == byte_len(old_text),
                self.text@ == old_text + other_text,
                total == base + byte_len(other_text),
                total <= usize::MAX,
                tiles(other_os, byte_len(other_text)),
                tiles(old_os, byte_len(old_text)),
                self.origins@.len() == old_os.len() + it.index(),
                self.origins@.take(old_os.len() as int) == old_os,
                forall|j: int| #![trigger self.origins@[old_os.len() + j]]
                    0 <= j < it.index() ==> {
                        &&& self.origins@[old_os.len() + j].range.begin == other_os[j].range.begin + base
                        &&& self.origins@[old_os.len() + j].range.end == other_os[j].range.end + base
                        &&& self.origins@[old_os.len() + j].byte_sources() == other_os[j].byte_sources()
                    },
        {
            let mut o = o;
            proof {
                assert(o == other_os[it.index() as int]);
                lemma_tiles_bound(other_os, byte_len(other_text), it.index() as int);
            }
            let mut range = o.range;
            range.offset(base);
            o.range = range;
            let ghost before = self.origins@;
            self.origins.push(o);
            proof {
                assert(self.origins@.take(old_os.len() as int) =~= before.take(old_os.len() as int));
                assert forall|j: int| #![trigger self.origins@[old_os.len() + j]]
                    0 <= j < it.index() + 1 implies {
                        &&& self.origins@[old_os.len() + j].range.begin == other_os[j].range.begin + base
                        &&& self.origins@[old_os.len() + j].range.end == other_os[j].range.end + base
                        &&& self.origins@[old_os.len() + j].byte_sources() == other_os[j].byte_sources()
                    } by {
                    if j < it.index() {
                        assert(self.origins@[old_os.len() + j] == before[old_os.len() + j]);
                    } else {
                        assert(self.origins@[old_os.len() + j] == o);
                        assert(o.byte_sources() =~= other_os[j].byte_sources());
                    }
                }
            }
        }
        proof {
            lemma_shifted_tiles(old_os, other_os, self.origins@, base as nat, byte_len(other_text));
            lemma_byte_len_concat(old_text, other_text);
        }
    }

    /// The preprocessed text.
    pub fn text(&self) -> (r: &str)
        ensures
            r@ == self@.text,
    {
        self.text.as_str()
    }

    /// The file and the byte position in it that byte `pos` of the text came
    /// from, or `None` when `pos` is past the end of the text.
    pub fn origin(&self, pos: usize) -> (r: Option<(&PathBuf, usize)>)
        requires
            self.wf(),
            pos < self@.sources.len() ==> self@.sources[pos as int].1 <= usize::MAX,
        ensures
            match r {
                None => pos >= self@.sources.len(),
                Some((path, p)) => pos < self@.sources.len() && *path == self@.sources[pos as int].0
                    && p == self@.sources[pos as int].1,
            },
    {
        let ghost os = self.origins@;
        let ghost len = byte_len(self.text@);
        let n = self.origins.len();
        let mut lo: usize = 0;
        let mut hi: usize = n;
        while lo < hi
            invariant
                os == self.origins@,
                len == byte_len(self.text@),
                tiles(os, len),
                n == os.len(),
                lo <= hi <= n,
                forall|j: int| 0 <= j < lo ==> (#[trigger] os[j]).range.end <= pos,
                forall|j: int| hi <= j < n ==> (#[trigger] os[j]).range.begin > pos,
                pos < self@.sources.len() ==> self@.sources[pos as int].1 <= usize::MAX,
            decreases hi - lo,
        {
            let mid = lo + (hi - lo) / 2;
            let o = &self.origins[mid];
            if o.range.end <= pos {
                proof {
                    assert forall|j: int| 0 <= j < mid + 1 implies (#[trigger] os[j]).range.end <= pos by {
                        if j < mid {
                            lemma_tiles_ordered(os, len, j, mid as int);
                        }
                    }
                }
                lo = mid + 1;
            } else if o.range.begin > pos {
                proof {
                    assert forall|j: int| mid <= j < n implies (#[trigger] os[j]).range.begin > pos by {
                        if j > mid {
                            lemma_tiles_ordered(os, len, mid as int, j);
                        }
                    }
                }
                hi = mid;
            } else {
                proof {
                    lemma_tiles_lookup(os, len, mid as int, pos as int);
                }
                let ret_pos = pos - o.range.begin + o.origin_range.begin;
                return Some((&o.origin_path, ret_pos));
            }
        }
        proof {
            lemma_tiles_len(os, len);
            if n == 0 {
            } else if lo == n {
                assert(os[n - 1].range.end <= pos);
            } else if lo == 0 {
                assert(os[0].range.begin > pos);
            } else {
                assert(os[lo as int].range.begin == os[lo - 1].range.end);
            }
        }
        None
    }
}

/// Every piece of a tiling ends within the tiled length.
proof fn lemma_tiles_bound(os: Seq<Origin>, len: nat, j: int)
    requires
        tiles(os, len),
        0 <= j < os.len(),
    ensures
        os[j].range.begin <= os[j].range.end <= len,
{
    if j + 1 < os.len() {
        lemma_tiles_ordered(os, len, j, os.len() - 1);
        assert(os[os.len() - 1] == os.last());
    }
}

/// Appending the pieces of a tiling of `other_len` bytes, each moved forward
/// by `base`, to a tiling of `base` bytes tiles `base + other_len` bytes, and
/// the sources are those of both tilings, one after the other.
proof fn lemma_shifted_tiles(
    old_os: Seq<Origin>,
    other_os: Seq<Origin>,
    os: Seq<Origin>,
    base: nat,
    other_len: nat,
)
    requires
        tiles(old_os, base),
        tiles(other_os, other_len),
        os.len() == old_os.len() + other_os.len(),
        os.take(old_os.len() as int) == old_os,
        forall|j: int| #![trigger os[old_os.len() + j]]
            0 <= j < other_os.len() ==> {
                &&& os[old_os.len() + j].range.begin == other_os[j].range.begin + base
                &&& os[old_os.len() + j].range.end == other_os[j].range.end + base
                &&& os[old_os.len() + j].byte_sources() == other_os[j].byte_sources()
            },
    ensures
        tiles(os, base + other_len),
        sources_of(os) == sources_of(old_os) + sources_of(other_os),
{
    let shifted = os.skip(old_os.len() as int);
    assert(os =~= old_os + shifted);
    assert forall|j: int| 0 <= j < shifted.len() implies (#[trigger] shifted[j]).byte_sources()
        == other_os[j].byte_sources() by {
        assert(shifted[j] == os[old_os.len() + j]);
    }
    lemma_same_sources(shifted, other_os);
    lemma_sources_concat(old_os, shifted);
    assert forall|i: int| 0 <= i < os.len() implies (#[trigger] os[i]).range.begin
        <= os[i].range.end by {
        if i < old_os.len() {
            assert(os[i] == old_os[i]);
        } else {
            let j = i - old_os.len();
            assert(other_os[j].range.begin <= other_os[j].range.end);
            assert(os[old_os.len() + j] == os[i]);
        }
    }
    assert forall|i: int| 0 < i < os.len() implies (#[trigger] os[i]).range.begin
        == os[i - 1].range.end by {
        if i < old_os.len() {
            assert(os[i] == old_os[i]);
            assert(os[i - 1] == old_os[i - 1]);
        } else if i == old_os.len() {
            assert(os[old_os.len() + 0int] == os[i]);
            assert(os[i - 1] == old_os[i - 1]);
        } else {
            let j = i - old_os.len();
            assert(os[old_os.len() + j] == os[i]);
            assert(os[old_os.len() + (j - 1)] == os[i - 1]);
            assert(other_os[j].range.begin == other_os[j - 1].range.end);
        }
    }
    if os.len() > 0 {
        if old_os.len() > 0 {
            assert(os[0] == old_os[0]);
        } else {
            assert(os[old_os.len() + 0int] == os[0]);
        }
        if other_os.len() > 0 {
            let j = other_os.len() - 1;
            assert(os[old_os.len() + j] == os.last());
        } else {
            assert(os.last() == old_os.last());
        }
    }
}

/// Pieces with the same per-piece sources give the same sources.
proof fn lemma_same_sources(a: Seq<Origin>, b: Seq<Origin>)
    requires
        a.len() == b.len(),
        forall|j: int| 0 <= j < a.len() ==> (#[trigger] a[j]).byte_sources() == b[j].byte_sources(),
    ensures
        sources_of(a) == sources_of(b),
    decreases a.len(),
{
    if a.len() > 0 {
        assert forall|j: int| 0 <= j < a.len() - 1 implies (#[trigger] a.drop_last()[j]).byte_sources()
            == b.drop_last()[j].byte_sources() by {
            assert(a.drop_last()[j] == a[j]);
            assert(b.drop_last()[j] == b[j]);
        }
        lemma_same_sources(a.drop_last(), b.drop_last());
    }
}

} // verus!
