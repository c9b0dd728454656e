//! Character-sequence utilities shared by the table and the resolver:
//! whitespace tokenizing, substring search, and substring replacement.

use vstd::prelude::*;

verus! {

use vstd::string::StrSliceExecFns;
use vstd::string::StringExecFns;

/// The code points with the Unicode `White_Space` property: the separators
/// that whitespace tokenizing recognizes.
pub open spec fn is_space(c: char) -> bool {
    let u = c as u32;
    (0x09 <= u && u <= 0x0D) || u == 0x20 || u == 0x85 || u == 0xA0 || u == 0x1680 || (0x2000
        <= u && u <= 0x200A) || u == 0x2028 || u == 0x2029 || u == 0x202F || u == 0x205F || u
        == 0x3000
}

fn is_space_char(c: char) -> (r: bool)
    ensures
        r == is_space(c),
{
    let u = c as u32;
    (0x09 <= u && u <= 0x0D) || u == 0x20 || u == 0x85 || u == 0xA0 || u == 0x1680 || (0x2000
        <= u && u <= 0x200A) || u == 0x2028 || u == 0x2029 || u == 0x202F || u == 0x205F || u
        == 0x3000
}

/// The views of a sequence of owned strings.
pub open spec fn views_of(lines: Seq<String>) -> Seq<Seq<char>> {
    Seq::new(lines.len(), |i: int| lines[i]@)
}

/// The whitespace-separated tokens of `s`, in order: maximal runs of
/// non-whitespace characters, with all separators dropped.
pub open spec fn ws_split(s: Seq<char>) -> Seq<Seq<char>>
    decreases s.len(),
{
    if s.len() == 0 {
        Seq::empty()
    } else if is_space(s[0]) {
        ws_split(s.skip(1))
    } else if s.len() > 1 && !is_space(s[1]) {
        let rest = ws_split(s.skip(1));
        seq![seq![s[0]] + rest[0]] + rest.skip(1)
    } else {
        seq![seq![s[0]]] + ws_split(s.skip(1))
    }
}

/// `needle` occurs somewhere in `hay` as a contiguous run.
pub open spec fn contains_seq(hay: Seq<char>, needle: Seq<char>) -> bool {
    exists|i: int|
        0 <= i && i + needle.len() <= hay.len() && #[trigger] hay.subrange(
            i,
            i + needle.len(),
        ) == needle
}

/// `s` with every non-overlapping occurrence of `from` replaced by `to`,
/// scanning left to right. For an empty `from` the result is `s` itself.
pub open spec fn replace_all(s: Seq<char>, from: Seq<char>, to: Seq<char>) -> Seq<char>
    decreases s.len(),
{
    if from.len() == 0 || s.len() < from.len() {
        s
    } else if s.take(from.len() as int) == from {
        to + replace_all(s.skip(from.len() as int), from, to)
    } else {
        seq![s[0]] + replace_all(s.skip(1), from, to)
    }
}

/// Character-for-character string equality.
pub fn str_eq(a: &str, b: &str) -> (r: bool)
    ensures
        r == (a@ == b@),
{
    let an = a.unicode_len();
    let bn = b.unicode_len();
    if an != bn {
        return false;
    }
    let mut i: usize = 0;
    while i < an
        invariant
            i <= an,
            an == a@.len(),
            bn == b@.len(),
            an == bn,
            forall|j: int| 0 <= j < i ==> a@[j] == b@[j],
        decreases an - i,
    {
        if a.get_char(i) != b.get_char(i) {
            return false;
        }
        i += 1;
    }
    proof {
        assert(a@ =~= b@);
    }
    true
}

/// Whether `needle` stands in `hay` at position `at`.
fn matches_at(hay: &str, needle: &str, at: usize) -> (r: bool)
    requires
        at + needle@.len() <= hay@.len(),
    ensures
        r == (hay@.subrange(at as int, at as int + needle@.len() as int) == needle@),
{
    let hn = hay.unicode_len();
    let nn = needle.unicode_len();
    let mut j: usize = 0;
    while j < nn
        invariant
            j <= nn,
            hn == hay@.len(),
            nn == needle@.len(),
            at + nn <= hn,
            forall|k: int| 0 <= k < j ==> hay@[at + k] == needle@[k],
        decreases nn - j,
    {
        if hay.get_char(at + j) != needle.get_char(j) {
            proof {
                assert(hay@.subrange(at as int, at as int + needle@.len() as int)[j as int]
                    == hay@[at + j]);
            }
            return false;
        }
        j += 1;
    }
    proof {
        assert(hay@.subrange(at as int, at as int + needle@.len() as int) =~= needle@);
    }
    true
}

/// How a partial token at the front composes with the tokens of the
/// remaining text: it merges into the first remaining token when the
/// remaining text begins mid-word, and stands alone otherwise.
spec fn prepend_tok(cur: Seq<char>, rest: Seq<char>) -> Seq<Seq<char>> {
    if rest.len() > 0 && !is_space(rest[0]) {
        seq![cur + ws_split(rest)[0]] + ws_split(rest).skip(1)
    } else {
        seq![cur] + ws_split(rest)
    }
}

/// Every token that `ws_split` yields is nonempty.
pub proof fn lemma_ws_split_tokens_nonempty(s: Seq<char>)
    ensures
        forall|i: int| 0 <= i < ws_split(s).len() ==> #[trigger] ws_split(s)[i].len() > 0,
    decreases s.len(),
{
    if s.len() == 0 {
    } else {
        lemma_ws_split_tokens_nonempty(s.skip(1));
        let rest = ws_split(s.skip(1));
        if is_space(s[0]) {
        } else if s.len() > 1 && !is_space(s[1]) {
            assert(s.skip(1)[0] == s[1]);
            assert(rest.len() >= 1);
            assert(ws_split(s) == seq![seq![s[0]] + rest[0]] + rest.skip(1));
            assert(ws_split(s)[0].len() > 0);
            assert forall|i: int| 1 <= i < ws_split(s).len() implies #[trigger] ws_split(
                s,
            )[i].len() > 0 by {
                assert(ws_split(s)[i] == rest.skip(1)[i - 1]);
                assert(rest.skip(1)[i - 1] == rest[i]);
                assert(rest[i].len() > 0);
            }
        } else {
            assert(ws_split(s) == seq![seq![s[0]]] + rest);
            assert(ws_split(s)[0].len() > 0);
            assert forall|i: int| 1 <= i < ws_split(s).len() implies #[trigger] ws_split(
                s,
            )[i].len() > 0 by {
                assert(ws_split(s)[i] == rest[i - 1]);
                assert(rest[i - 1].len() > 0);
            }
        }
    }
}

/// A nonempty run of word characters followed by a separator (or by the
/// end of the text) forms exactly one leading token.
pub proof fn lemma_ws_split_word_prefix(a: Seq<char>, rest: Seq<char>)
    requires
        a.len() > 0,
        forall|i: int| 0 <= i < a.len() ==> !is_space(#[trigger] a[i]),
        rest.len() == 0 || is_space(rest[0]),
    ensures
        ws_split(a + rest) == seq![a] + ws_split(rest),
    decreases a.len(),
{
    let s = a + rest;
    assert(s[0] == a[0]);
    assert(s.skip(1) =~= a.skip(1) + rest);
    if a.len() == 1 {
        assert(s.skip(1) =~= rest);
        if s.len() > 1 {
            assert(s[1] == rest[0]);
        }
        assert(ws_split(s) == seq![seq![s[0]]] + ws_split(rest));
        assert(seq![s[0]] =~= a);
        assert(ws_split(s) =~~= seq![a] + ws_split(rest));
    } else {
        assert(s[1] == a[1]);
        assert(!is_space(s[1]));
        lemma_ws_split_word_prefix(a.skip(1), rest);
        let r1 = ws_split(a.skip(1) + rest);
        assert(r1 == seq![a.skip(1)] + ws_split(rest));
        assert(r1[0] == a.skip(1));
        assert(r1.skip(1) =~~= ws_split(rest));
        assert(ws_split(s) == seq![seq![s[0]] + r1[0]] + r1.skip(1));
        assert(seq![s[0]] + r1[0] =~= a);
        assert(ws_split(s) =~~= seq![a] + ws_split(rest));
    }
}

/// A nonempty text made of word characters alone is a single token.
pub proof fn lemma_ws_split_single_word(s: Seq<char>)
    requires
        s.len() > 0,
        forall|i: int| 0 <= i < s.len() ==> !is_space(#[trigger] s[i]),
    ensures
        ws_split(s) == seq![s],
{
    lemma_ws_split_word_prefix(s, Seq::empty());
    assert(s + Seq::<char>::empty() =~= s);
    assert(ws_split(Seq::<char>::empty()) =~~= Seq::<Seq<char>>::empty());
    assert(seq![s] + Seq::<Seq<char>>::empty() =~~= seq![s]);
}

/// Whitespace tokenizing of `line`.
pub fn split_ws(line: &str) -> (r: Vec<String>)
    ensures
        views_of(r@) == ws_split(line@),
{
    let n = line.unicode_len();
    let mut done: Vec<String> = Vec::new();
    let mut i: usize = 0;
    let mut start: usize = 0;
    let mut in_tok: bool = false;
    proof {
        assert(line@.skip(0) =~= line@);
        assert(views_of(done@) + ws_split(line@) =~= ws_split(line@));
    }
    while i < n
        invariant
            i <= n,
            n == line@.len(),
            in_tok ==> start < i,
            !in_tok ==> ws_split(line@) == views_of(done@) + ws_split(line@.skip(i as int)),
            in_tok ==> ws_split(line@) == views_of(done@) + prepend_tok(
                line@.subrange(start as int, i as int),
                line@.skip(i as int),
            ),
        decreases n - i,
    {
        let ghost l = line@;
        let ghost cur = l.subrange(start as int, i as int);
        proof {
            assert(l.skip(i as int)[0] == l[i as int]);
            assert(l.skip(i as int).skip(1) =~= l.skip(i as int + 1));
            assert(l.skip(i as int).len() == n - i);
        }
        let c = line.get_char(i);
        if is_space_char(c) {
            if in_tok {
                proof {
                    // mid-token with a separator next: the token closes here
                    assert(prepend_tok(cur, l.skip(i as int)) =~~= seq![cur] + ws_split(
                        l.skip(i as int),
                    ));
                    assert(ws_split(l.skip(i as int)) == ws_split(l.skip(i as int + 1)));
                }
                let tok = line.substring_char(start, i);
                let tok_s = tok.to_owned();
                proof {
                    assert(views_of(done@.push(tok_s)) =~~= views_of(done@).push(cur));
                    assert(views_of(done@).push(cur) + ws_split(l.skip(i as int + 1)) =~~= views_of(
                        done@,
                    ) + (seq![cur] + ws_split(l.skip(i as int + 1))));
                }
                done.push(tok_s);
                in_tok = false;
            } else {
                proof {
                    assert(ws_split(l.skip(i as int)) == ws_split(l.skip(i as int + 1)));
                }
            }
        } else {
            if !in_tok {
                start = i;
                in_tok = true;
                proof {
                    // a fresh token opens at `i`
                    assert(l.subrange(i as int, i as int + 1) =~= seq![l[i as int]]);
                    if i as int + 1 < n && !is_space(l[i as int + 1]) {
                        assert(ws_split(l.skip(i as int)) =~~= seq![
                            seq![l[i as int]] + ws_split(l.skip(i as int + 1))[0],
                        ] + ws_split(l.skip(i as int + 1)).skip(1));
                        assert(prepend_tok(l.subrange(i as int, i as int + 1), l.skip(i as int + 1))
                            =~~= ws_split(l.skip(i as int)));
                    } else {
                        assert(ws_split(l.skip(i as int)) =~~= seq![seq![l[i as int]]] + ws_split(
                            l.skip(i as int + 1),
                        ));
                        assert(prepend_tok(l.subrange(i as int, i as int + 1), l.skip(i as int + 1))
                            =~~= ws_split(l.skip(i as int)));
                    }
                }
            } else {
                proof {
                    let cur1 = l.subrange(start as int, i as int + 1);
                    assert(cur1 =~= cur + seq![l[i as int]]);
                    let rest1 = ws_split(l.skip(i as int + 1));
                    if i as int + 1 < n && !is_space(l[i as int + 1]) {
                        assert(ws_split(l.skip(i as int)) =~~= seq![seq![l[i as int]] + rest1[0]]
                            + rest1.skip(1));
                        assert(ws_split(l.skip(i as int))[0] == seq![l[i as int]] + rest1[0]);
                        assert(ws_split(l.skip(i as int)).skip(1) =~~= rest1.skip(1));
                        assert(cur + (seq![l[i as int]] + rest1[0]) =~= cur1 + rest1[0]);
                        assert(prepend_tok(cur, l.skip(i as int)) =~~= prepend_tok(
                            cur1,
                            l.skip(i as int + 1),
                        ));
                    } else {
                        assert(ws_split(l.skip(i as int)) =~~= seq![seq![l[i as int]]] + ws_split(
                            l.skip(i as int + 1),
                        ));
                        assert(ws_split(l.skip(i as int))[0] == seq![l[i as int]]);
                        assert(ws_split(l.skip(i as int)).skip(1) =~~= ws_split(
                            l.skip(i as int + 1),
                        ));
                        assert(cur + seq![l[i as int]] =~= cur1);
                        assert(prepend_tok(cur, l.skip(i as int)) =~~= prepend_tok(
                            cur1,
                            l.skip(i as int + 1),
                        ));
                    }
                }
            }
        }
        i += 1;
    }
    proof {
        assert(line@.skip(n as int) =~= Seq::<char>::empty());
        assert(ws_split(Seq::<char>::empty()) =~~= Seq::<Seq<char>>::empty());
    }
    if in_tok {
        let tok = line.substring_char(start, n);
        let tok_s = tok.to_owned();
        proof {
            let cur = line@.subrange(start as int, n as int);
            assert(prepend_tok(cur, line@.skip(n as int)) =~~= seq![cur]);
            assert(views_of(done@.push(tok_s)) =~~= views_of(done@).push(cur));
            assert(views_of(done@).push(cur) =~~= views_of(done@) + seq![cur]);
        }
        done.push(tok_s);
    } else {
        proof {
            assert(views_of(done@) + Seq::<Seq<char>>::empty() =~~= views_of(done@));
        }
    }
    done
}

/// `s` with every occurrence of `from` replaced by `to`, left to right.
pub(crate) fn replace_all_str(s: &str, from: &str, to: &str) -> (r: String)
    requires
        from@.len() > 0,
    ensures
        r@ == replace_all(s@, from@, to@),
{
    let n = s.unicode_len();
    let flen = from.unicode_len();
    let mut out = String::new();
    let mut i: usize = 0;
    proof {
        assert(s@.skip(0) =~= s@);
        assert(out@ + replace_all(s@, from@, to@) =~= replace_all(s@, from@, to@));
    }
    while i < n
        invariant
            i <= n,
            n == s@.len(),
            flen == from@.len(),
            flen > 0,
            replace_all(s@, from@, to@) == out@ + replace_all(s@.skip(i as int), from@, to@),
        decreases n - i,
    {
        proof {
            assert(s@.skip(i as int)[0] == s@[i as int]);
            assert(s@.skip(i as int).skip(1) =~= s@.skip(i as int + 1));
            assert(s@.skip(i as int).len() == n - i);
        }
        if flen <= n - i && matches_at(s, from, i) {
            proof {
                assert(s@.skip(i as int).take(flen as int) =~= s@.subrange(
                    i as int,
                    i as int + flen as int,
                ));
                assert(s@.skip(i as int).skip(flen as int) =~= s@.skip(i as int + flen as int));
                assert(replace_all(s@.skip(i as int), from@, to@) == to@ + replace_all(
                    s@.skip(i as int + flen as int),
                    from@,
                    to@,
                ));
                assert((out@ + to@) + replace_all(s@.skip(i as int + flen as int), from@, to@)
                    =~= out@ + (to@ + replace_all(s@.skip(i as int + flen as int), from@, to@)));
            }
            out.append(to);
            i += flen;
        } else {
            proof {
                if flen <= n - i {
                    assert(s@.skip(i as int).take(flen as int) =~= s@.subrange(
                        i as int,
                        i as int + flen as int,
                    ));
                    assert(s@.skip(i as int).take(flen as int) != from@);
                }
                assert(replace_all(s@.skip(i as int), from@, to@) == seq![s@[i as int]]
                    + replace_all(s@.skip(i as int + 1), from@, to@));
                assert((out@ + seq![s@[i as int]]) + replace_all(s@.skip(i as int + 1), from@, to@)
                    =~= out@ + (seq![s@[i as int]] + replace_all(
                    s@.skip(i as int + 1),
                    from@,
                    to@,
                )));
            }
            let piece = s.substring_char(i, i + 1);
            proof {
                assert(piece@ =~= seq![s@[i as int]]);
            }
            out.append(piece);
            i += 1;
        }
    }
    proof {
        assert(s@.skip(n as int) =~= Seq::<char>::empty());
        assert(out@ + Seq::<char>::empty() =~= out@);
    }
    out
}

/// Substring search: whether `needle` occurs anywhere in `hay`.
pub fn contains_sub(hay: &str, needle: &str) -> (r: bool)
    ensures
        r == contains_seq(hay@, needle@),
{
    let hn = hay.unicode_len();
    let nn = needle.unicode_len();
    if nn > hn {
        return false;
    }
    if nn == 0 {
        proof {
            assert(hay@.subrange(0, 0 + needle@.len() as int) =~= needle@);
        }
        return true;
    }
    let mut i: usize = 0;
    while i <= hn - nn
        invariant
            i <= hn - nn + 1,
            hn == hay@.len(),
            nn == needle@.len(),
            1 <= nn <= hn,
            forall|k: int|
                0 <= k < i ==> #[trigger] hay@.subrange(k, k + needle@.len()) != needle@,
        decreases hn - nn + 1 - i,
    {
        if matches_at(hay, needle, i) {
            return true;
        }
        i += 1;
    }
    false
}

} // verus!
