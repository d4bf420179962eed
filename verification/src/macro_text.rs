use vstd::prelude::*;

verus! {

/// `String::push`: appends one character.
#[verifier::external_body]
pub(crate) fn push_char(s: &mut String, c: char)
    ensures
        final(s)@ == old(s)@.push(c),
{
    s.push(c);
}

/// Characters that can occur in an identifier: ASCII letters and digits, and `_`.
pub open spec fn is_ident_char(c: char) -> bool {
    ('0' <= c && c <= '9') || ('a' <= c && c <= 'z') || ('A' <= c && c <= 'Z') || c == '_'
}

/// Whether `c` can occur in an identifier.
pub fn ident_char(c: char) -> (b: bool)
    ensures
        b == is_ident_char(c),
{
    ('0' <= c && c <= '9') || ('a' <= c && c <= 'z') || ('A' <= c && c <= 'Z') || c == '_'
}

/// The maximal runs of `s` whose characters are all identifier characters or
/// all other characters, in order.
pub open spec fn char_runs(s: Seq<char>) -> Seq<Seq<char>>
    decreases s.len(),
{
    if s.len() == 0 {
        Seq::empty()
    } else {
        let r = char_runs(s.drop_last());
        let c = s.last();
        if s.len() >= 2 && is_ident_char(c) == is_ident_char(s[s.len() - 2]) {
            r.update(r.len() - 1, r.last().push(c))
        } else {
            r.push(seq![c])
        }
    }
}

/// An empty piece when `s` starts with an identifier character, else nothing.
pub open spec fn lead_piece(s: Seq<char>) -> Seq<Seq<char>> {
    if s.len() > 0 && is_ident_char(s[0]) {
        seq![Seq::<char>::empty()]
    } else {
        Seq::empty()
    }
}

/// The pieces [`split_text`] cuts `s` into: an empty piece when `s` starts
/// with an identifier character, then every maximal run of `s`.
pub open spec fn split_pieces(s: Seq<char>) -> Seq<Seq<char>> {
    lead_piece(s) + char_runs(s)
}

/// The pieces closed off after reading `s`: every piece but the run still
/// being read.
spec fn closed_pieces(s: Seq<char>) -> Seq<Seq<char>> {
    if s.len() == 0 {
        lead_piece(s)
    } else {
        lead_piece(s) + char_runs(s).drop_last()
    }
}

/// A nonempty text has a nonempty last run, which ends the text.
pub proof fn lemma_char_runs_nonempty(s: Seq<char>)
    requires
        s.len() > 0,
    ensures
        char_runs(s).len() > 0,
        char_runs(s).last().len() > 0,
        char_runs(s).last().last() == s.last(),
    decreases s.len(),
{
    if s.len() >= 2 {
        lemma_char_runs_nonempty(s.drop_last());
    }
}

/// Cuts `s` where it passes between identifier characters and other
/// characters, and returns the pieces, led by an empty piece when `s`
/// starts with an identifier character.
pub fn split_text(s: &str) -> (r: Vec<String>)
    ensures
        r.deep_view() == split_pieces(s@),
{
    let mut is_ident = false;
    let mut is_ident_prev;
    let mut x = String::new();
    let mut ret: Vec<String> = Vec::new();
    let mut any = false;
    let ghost chars = s@;
    for c in it: s.chars()
        invariant
            it.seq() == chars,
            chars == s@,
            is_ident == (it.index() > 0 && is_ident_char(chars[it.index() - 1])),
            it.index() == 0 ==> x@ == Seq::<char>::empty(),
            it.index() > 0 ==> x@ == char_runs(chars.take(it.index() as int)).last(),
            any == (it.index() > 0),
            ret.deep_view() == closed_pieces(chars.take(it.index() as int)),
    {
        let ghost i = it.index() as int;
        let ghost t = chars.take(i);
        let ghost t1 = chars.take(i + 1);
        proof {
            assert(t1.drop_last() =~= t);
            assert(t1.last() == c);
            assert(c == chars[i]);
            if i > 0 {
                lemma_char_runs_nonempty(t);
                assert(t1[t1.len() - 2] == chars[i - 1]);
                assert(t1[0] == t[0]);
            }
        }
        is_ident_prev = is_ident;
        is_ident = ident_char(c);
        let ghost old_ret = ret.deep_view();
        if is_ident != is_ident_prev {
            ret.push(x);
            x = String::new();
        }
        push_char(&mut x, c);
        any = true;
        proof {
            let r = char_runs(t);
            if i == 0 {
                assert(t1 =~= seq![c]);
                assert(char_runs(t1) =~= seq![seq![c]]);
                assert(ret.deep_view() =~= closed_pieces(t1));
            } else if is_ident == is_ident_prev {
                assert(char_runs(t1) == r.update(r.len() - 1, r.last().push(c)));
                assert(char_runs(t1).drop_last() =~= r.drop_last());
                assert(ret.deep_view() =~= old_ret);
                assert(ret.deep_view() =~= closed_pieces(t1));
            } else {
                assert(char_runs(t1) == r.push(seq![c]));
                assert(char_runs(t1).drop_last() =~= r);
                assert(r =~= r.drop_last().push(r.last()));
                assert(ret.deep_view() =~= old_ret.push(r.last()));
                assert(ret.deep_view() =~= closed_pieces(t1));
            }
        }
    }
    proof {
        assert(chars.take(chars.len() as int) =~= chars);
    }
    if any {
        let ghost before = ret.deep_view();
        ret.push(x);
        proof {
            let r = char_runs(chars);
            lemma_char_runs_nonempty(chars);
            assert(r =~= r.drop_last().push(r.last()));
            assert(ret.deep_view() =~= before.push(r.last()));
            assert(ret.deep_view() =~= split_pieces(chars));
        }
    } else {
        proof {
            assert(chars.len() == 0);
            assert(char_runs(chars) =~= Seq::<Seq<char>>::empty());
            assert(ret.deep_view() =~= split_pieces(chars));
        }
    }
    ret
}

/// `s` with every non-overlapping occurrence of two backticks, found from the
/// left, removed.
pub open spec fn strip_double_backticks(s: Seq<char>) -> Seq<char>
    decreases s.len(),
{
    if s.len() == 0 {
        s
    } else if s.len() >= 2 && s[0] == '`' && s[1] == '`' {
        strip_double_backticks(s.skip(2))
    } else {
        seq![s[0]] + strip_double_backticks(s.skip(1))
    }
}

/// One backtick when `pending`, nothing otherwise.
spec fn pending_tick(pending: bool) -> Seq<char> {
    if pending {
        seq!['`']
    } else {
        Seq::<char>::empty()
    }
}

/// Removes every "``" from `s`, scanning from the left.
pub fn remove_double_backticks(s: &str) -> (r: String)
    ensures
        r@ == strip_double_backticks(s@),
{
    let mut out = String::new();
    let mut pending = false;
    let ghost chars = s@;
    proof {
        assert(pending_tick(false) + chars.skip(0) =~= chars);
        assert(out@ + strip_double_backticks(chars) =~= strip_double_backticks(chars));
    }
    for c in it: s.chars()
        invariant
            it.seq() == chars,
            chars == s@,
            strip_double_backticks(chars) == out@ + strip_double_backticks(
                pending_tick(pending) + chars.skip(it.index() as int),
            ),
    {
        let ghost i = it.index() as int;
        let ghost rest = chars.skip(i + 1);
        let ghost old_out = out@;
        let ghost old_pending = pending;
        let ghost w = pending_tick(pending) + chars.skip(i);
        proof {
            assert(chars.skip(i) =~= seq![c] + rest);
            assert(c == chars[i]);
        }
        if c == '`' {
            if pending {
                pending = false;
                proof {
                    assert(w[0] == '`' && w[1] == '`');
                    assert(w.skip(2) =~= rest);
                    assert(pending_tick(false) + rest =~= rest);
                }
            } else {
                pending = true;
                proof {
                    assert(w =~= pending_tick(true) + rest);
                }
            }
        } else {
            if pending {
                push_char(&mut out, '`');
                pending = false;
                proof {
                    let v = seq![c] + rest;
                    assert(w[0] == '`' && w[1] == c);
                    assert(w.skip(1) =~= v);
                    assert(v.skip(1) =~= rest);
                    assert(strip_double_backticks(v) == seq![c] + strip_double_backticks(rest));
                    assert(strip_double_backticks(w) == seq!['`'] + strip_double_backticks(v));
                    assert(pending_tick(false) + rest =~= rest);
                }
            } else {
                proof {
                    assert(w =~= seq![c] + rest);
                    assert(w.skip(1) =~= rest);
                    assert(strip_double_backticks(w) == seq![c] + strip_double_backticks(rest));
                    assert(pending_tick(false) + rest =~= rest);
                }
            }
            push_char(&mut out, c);
            proof {
                if old_pending {
                    assert(old_out + (seq!['`'] + (seq![c] + strip_double_backticks(rest))) =~= out@
                        + strip_double_backticks(rest));
                } else {
                    assert(old_out + (seq![c] + strip_double_backticks(rest)) =~= out@
                        + strip_double_backticks(rest));
                }
            }
        }
    }
    proof {
        assert(chars.skip(chars.len() as int) =~= Seq::<char>::empty());
        assert(pending_tick(pending) + Seq::<char>::empty() =~= pending_tick(pending));
    }
    if pending {
        proof {
            let w = seq!['`'];
            assert(w.skip(1) =~= Seq::<char>::empty());
            assert(strip_double_backticks(w) == seq!['`'] + strip_double_backticks(Seq::<char>::empty()));
        }
        push_char(&mut out, '`');
    }
    proof {
        assert(out@ + Seq::<char>::empty() =~= out@);
    }
    out
}

} // verus!
