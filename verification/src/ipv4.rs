//! The IPv4 validator: accepts exactly four dot-separated decimal octets,
//! each in `0..=255` and written without leading zeros.

use vstd::prelude::*;

verus! {

use vstd::string::StrSliceExecFns;
use crate::text::views_of;
use crate::text::is_space;

/// An ASCII decimal digit.
pub open spec fn is_digit(c: char) -> bool {
    0x30 <= c as u32 && c as u32 <= 0x39
}

pub open spec fn all_digits(s: Seq<char>) -> bool {
    forall|i: int| 0 <= i < s.len() ==> is_digit(#[trigger] s[i])
}

/// The decimal value of a digit string.
pub open spec fn seq_val(s: Seq<char>) -> int
    decreases s.len(),
{
    if s.len() == 0 {
        0
    } else {
        seq_val(s.drop_last()) * 10 + (s.last() as u32 - 0x30)
    }
}

/// A well-formed octet: one to three digits, no leading zero, value at
/// most 255.
pub open spec fn valid_octet(s: Seq<char>) -> bool {
    1 <= s.len() <= 3 && all_digits(s) && (s.len() == 1 || s[0] as u32 != 0x30) && seq_val(s)
        <= 255
}

/// The fields of `s` when cut at every `.`, empty fields kept.
pub open spec fn dot_split(s: Seq<char>) -> Seq<Seq<char>>
    decreases s.len(),
{
    if s.len() == 0 {
        seq![Seq::<char>::empty()]
    } else if s[0] == '.' {
        seq![Seq::<char>::empty()] + dot_split(s.skip(1))
    } else {
        let rest = dot_split(s.skip(1));
        seq![seq![s[0]] + rest[0]] + rest.skip(1)
    }
}

/// A dotted-quad IPv4 literal: exactly four fields, each a well-formed
/// octet. The whole string must match; nothing may precede or follow.
pub open spec fn is_valid_ipv4_string(s: Seq<char>) -> bool {
    dot_split(s).len() == 4 && (forall|i: int| 0 <= i < 4 ==> valid_octet(#[trigger] dot_split(
        s,
    )[i]))
}

/// `dot_split` always yields at least one field.
pub proof fn lemma_dot_split_len(s: Seq<char>)
    ensures
        dot_split(s).len() >= 1,
{
    if s.len() == 0 {
    } else if s[0] == '.' {
    } else {
    }
}

/// Every character of a valid IPv4 literal is a digit or a dot; in
/// particular none is whitespace and none is `#`.
pub proof fn lemma_ipv4_chars(s: Seq<char>)
    requires
        is_valid_ipv4_string(s),
    ensures
        s.len() > 0,
        forall|i: int| 0 <= i < s.len() ==> is_digit(#[trigger] s[i]) || s[i] == '.',
        forall|i: int| 0 <= i < s.len() ==> !is_space(#[trigger] s[i]),
        s[0] != '#',
{
    lemma_dot_split_chars(s);
    assert forall|i: int| 0 <= i < s.len() implies !is_space(#[trigger] s[i]) by {
        assert(is_digit(s[i]) || s[i] == '.');
        assert('.' as u32 == 0x2E);
    }
    assert(s.len() > 0);
    assert('#' as u32 == 0x23);
    assert('.' as u32 == 0x2E);
    assert(s[0] != '#');
}

/// Under the hypothesis that every field of `dot_split(s)` is made of
/// digits, every character of `s` is a digit or a dot.
proof fn lemma_dot_split_chars(s: Seq<char>)
    requires
        forall|k: int| 0 <= k < dot_split(s).len() ==> all_digits(#[trigger] dot_split(s)[k]),
    ensures
        forall|i: int| 0 <= i < s.len() ==> is_digit(#[trigger] s[i]) || s[i] == '.',
    decreases s.len(),
{
    if s.len() == 0 {
    } else if s[0] == '.' {
        let rest = dot_split(s.skip(1));
        assert(dot_split(s) == seq![Seq::<char>::empty()] + rest);
        assert forall|k: int| 0 <= k < rest.len() implies all_digits(#[trigger] rest[k]) by {
            assert(rest[k] == dot_split(s)[k + 1]);
        }
        lemma_dot_split_chars(s.skip(1));
        assert forall|i: int| 0 <= i < s.len() implies is_digit(#[trigger] s[i]) || s[i] == '.' by {
            if i > 0 {
                assert(s[i] == s.skip(1)[i - 1]);
            }
        }
    } else {
        let rest = dot_split(s.skip(1));
        lemma_dot_split_len(s.skip(1));
        assert(dot_split(s) == seq![seq![s[0]] + rest[0]] + rest.skip(1));
        assert(dot_split(s)[0] == seq![s[0]] + rest[0]);
        assert forall|k: int| 0 <= k < rest.len() implies all_digits(#[trigger] rest[k]) by {
            if k == 0 {
                assert(all_digits(dot_split(s)[0]));
                assert forall|j: int| 0 <= j < rest[0].len() implies is_digit(
                    #[trigger] rest[0][j],
                ) by {
                    assert(rest[0][j] == dot_split(s)[0][j + 1]);
                }
            } else {
                assert(rest[k] == rest.skip(1)[k - 1]);
                assert(rest.skip(1)[k - 1] == dot_split(s)[k]);
            }
        }
        lemma_dot_split_chars(s.skip(1));
        assert(all_digits(dot_split(s)[0]));
        assert(is_digit(dot_split(s)[0][0]));
        assert(dot_split(s)[0][0] == s[0]);
        assert forall|i: int| 0 <= i < s.len() implies is_digit(#[trigger] s[i]) || s[i] == '.' by {
            if i > 0 {
                assert(s[i] == s.skip(1)[i - 1]);
            }
        }
    }
}

/// How a partial field at the front composes with the fields of the
/// remaining text.
spec fn dprepend(cur: Seq<char>, rest: Seq<char>) -> Seq<Seq<char>> {
    seq![cur + dot_split(rest)[0]] + dot_split(rest).skip(1)
}

/// Cut a string at every dot, keeping empty fields.
fn split_dots(s: &str) -> (r: Vec<String>)
    ensures
        views_of(r@) == dot_split(s@),
{
    let n = s.unicode_len();
    let mut done: Vec<String> = Vec::new();
    let mut i: usize = 0;
    let mut start: usize = 0;
    proof {
        assert(s@.skip(0) =~= s@);
        assert(s@.subrange(0, 0) =~= Seq::<char>::empty());
        lemma_dot_split_len(s@);
        assert(dprepend(Seq::<char>::empty(), s@) =~~= dot_split(s@));
        assert(views_of(done@) + dot_split(s@) =~~= dot_split(s@));
    }
    while i < n
        invariant
            start <= i <= n,
            n == s@.len(),
            dot_split(s@) == views_of(done@) + dprepend(
                s@.subrange(start as int, i as int),
                s@.skip(i as int),
            ),
        decreases n - i,
    {
        let ghost l = s@;
        let ghost cur = l.subrange(start as int, i as int);
        proof {
            assert(l.skip(i as int)[0] == l[i as int]);
            assert(l.skip(i as int).skip(1) =~= l.skip(i as int + 1));
            assert(l.skip(i as int).len() == n - i);
            lemma_dot_split_len(l.skip(i as int + 1));
        }
        let c = s.get_char(i);
        if c == '.' {
            proof {
                let rest = dot_split(l.skip(i as int + 1));
                assert(dot_split(l.skip(i as int)) == seq![Seq::<char>::empty()] + rest);
                assert(dot_split(l.skip(i as int))[0] =~= Seq::<char>::empty());
                assert(dot_split(l.skip(i as int)).skip(1) =~~= rest);
                assert(cur + Seq::<char>::empty() =~= cur);
                assert(dprepend(cur, l.skip(i as int)) =~~= seq![cur] + rest);
                assert(l.subrange(i as int + 1, i as int + 1) =~= Seq::<char>::empty());
                assert(dprepend(Seq::<char>::empty(), l.skip(i as int + 1)) =~~= rest);
            }
            let tok = s.substring_char(start, i);
            let tok_s = tok.to_owned();
            proof {
                assert(views_of(done@.push(tok_s)) =~~= views_of(done@).push(cur));
                assert(views_of(done@).push(cur) + dot_split(l.skip(i as int + 1)) =~~= views_of(
                    done@,
                ) + (seq![cur] + dot_split(l.skip(i as int + 1))));
            }
            done.push(tok_s);
            start = i + 1;
        } else {
            proof {
                let rest = dot_split(l.skip(i as int + 1));
                let cur1 = l.subrange(start as int, i as int + 1);
                assert(cur1 =~= cur + seq![l[i as int]]);
                assert(dot_split(l.skip(i as int)) == seq![seq![l[i as int]] + rest[0]]
                    + rest.skip(1));
                assert(dot_split(l.skip(i as int))[0] == seq![l[i as int]] + rest[0]);
                assert(dot_split(l.skip(i as int)).skip(1) =~~= rest.skip(1));
                assert(cur + (seq![l[i as int]] + rest[0]) =~= cur1 + rest[0]);
                assert(dprepend(cur, l.skip(i as int)) =~~= dprepend(cur1, l.skip(i as int + 1)));
            }
        }
        i += 1;
    }
    proof {
        let cur = s@.subrange(start as int, n as int);
        assert(s@.skip(n as int) =~= Seq::<char>::empty());
        assert(dot_split(Seq::<char>::empty()) == seq![Seq::<char>::empty()]);
        assert(cur + Seq::<char>::empty() =~= cur);
        assert(dprepend(cur, s@.skip(n as int)) =~~= seq![cur]);
    }
    let tok = s.substring_char(start, n);
    let tok_s = tok.to_owned();
    proof {
        let cur = s@.subrange(start as int, n as int);
        assert(views_of(done@.push(tok_s)) =~~= views_of(done@).push(cur));
        assert(views_of(done@).push(cur) =~~= views_of(done@) + seq![cur]);
    }
    done.push(tok_s);
    done
}

/// Whether `part` is a well-formed octet.
fn check_octet(part: &str) -> (r: bool)
    ensures
        r == valid_octet(part@),
{
    let n = part.unicode_len();
    if n < 1 || n > 3 {
        return false;
    }
    let mut val: u32 = 0;
    let mut i: usize = 0;
    proof {
        assert(part@.take(0) =~= Seq::<char>::empty());
    }
    while i < n
        invariant
            i <= n,
            n == part@.len(),
            1 <= n <= 3,
            forall|j: int| 0 <= j < i ==> is_digit(#[trigger] part@[j]),
            val as int == seq_val(part@.take(i as int)),
            i == 0 ==> val == 0,
            i == 1 ==> val <= 9,
            i == 2 ==> val <= 99,
            i == 3 ==> val <= 999,
        decreases n - i,
    {
        let u = part.get_char(i) as u32;
        if u < 0x30 || u > 0x39 {
            return false;
        }
        proof {
            assert(part@.take(i as int + 1).drop_last() =~= part@.take(i as int));
            assert(part@.take(i as int + 1).last() == part@[i as int]);
        }
        val = val * 10 + (u - 0x30);
        i += 1;
    }
    proof {
        assert(part@.take(n as int) =~= part@);
    }
    let first = part.get_char(0) as u32;
    if first == 0x30 && n > 1 {
        return false;
    }
    val <= 255
}

/// Whether `ip` is a well-formed dotted-quad IPv4 literal.
pub fn is_valid_ipv4(ip: &str) -> (r: bool)
    ensures
        r == is_valid_ipv4_string(ip@),
{
    let parts = split_dots(ip);
    proof {
        assert(views_of(parts@).len() == parts@.len());
    }
    if parts.len() != 4 {
        return false;
    }
    let mut k: usize = 0;
    while k < 4
        invariant
            k <= 4,
            parts@.len() == 4,
            views_of(parts@) == dot_split(ip@),
            forall|j: int| 0 <= j < k ==> valid_octet(#[trigger] dot_split(ip@)[j]),
        decreases 4 - k,
    {
        let ok = check_octet(parts[k].as_str());
        proof {
            assert(views_of(parts@)[k as int] == parts@[k as int]@);
        }
        if !ok {
            return false;
        }
        k += 1;
    }
    true
}

} // verus!
