//! The table updater: find or create the record for a domain in the hosts
//! mapping lines, rewrite it in place when its address differs, append it
//! when it is missing, and report the outcome.

use vstd::prelude::*;

verus! {

use vstd::string::StrSliceExecFns;
use vstd::string::StringExecFns;
use crate::ipv4::is_valid_ipv4;
use crate::ipv4::is_valid_ipv4_string;
use crate::ipv4::lemma_ipv4_chars;
use crate::text::contains_seq;
use crate::text::contains_sub;
use crate::text::is_space;
use crate::text::lemma_ws_split_single_word;
use crate::text::lemma_ws_split_word_prefix;
use crate::text::split_ws;
use crate::text::str_eq;
use crate::text::views_of;
use crate::text::ws_split;

/// A comment line: passed through verbatim, never interpreted.
pub open spec fn is_comment(line: Seq<char>) -> bool {
    line.len() > 0 && line[0] == '#'
}

/// The line is the record for `domain`: not a comment, it contains the
/// domain as a substring (the cheap pre-filter), and its second
/// whitespace-separated token equals the domain exactly.
pub open spec fn line_matches(line: Seq<char>, domain: Seq<char>) -> bool {
    &&& !is_comment(line)
    &&& contains_seq(line, domain)
    &&& ws_split(line).len() >= 2
    &&& ws_split(line)[1] == domain
}

/// The record line written for a domain: address, one space, domain.
pub open spec fn entry_line(ip: Seq<char>, domain: Seq<char>) -> Seq<char> {
    ip + seq![' '] + domain
}

/// Some line is the record for `domain`.
pub open spec fn has_match(lines: Seq<Seq<char>>, domain: Seq<char>) -> bool {
    exists|i: int| 0 <= i < lines.len() && line_matches(#[trigger] lines[i], domain)
}

/// Some line is the record for `domain` and already carries `ip`.
pub open spec fn has_exact(lines: Seq<Seq<char>>, domain: Seq<char>, ip: Seq<char>) -> bool {
    exists|i: int|
        0 <= i < lines.len() && line_matches(#[trigger] lines[i], domain) && ws_split(
            lines[i],
        )[0] == ip
}

/// Every record line for `domain` replaced by `entry_line(ip, domain)`;
/// all other lines kept verbatim, in place.
pub open spec fn rewritten(lines: Seq<Seq<char>>, domain: Seq<char>, ip: Seq<char>) -> Seq<
    Seq<char>,
> {
    Seq::new(
        lines.len(),
        |i: int|
            if line_matches(lines[i], domain) {
                entry_line(ip, domain)
            } else {
                lines[i]
            },
    )
}

/// The file contents after one update call: unchanged when the address is
/// invalid or the record already carries it; otherwise the record is
/// rewritten in place, or appended when missing.
pub open spec fn after_update(lines: Seq<Seq<char>>, domain: Seq<char>, ip: Seq<char>) -> Seq<
    Seq<char>,
> {
    if !is_valid_ipv4_string(ip) {
        lines
    } else if has_exact(lines, domain, ip) {
        lines
    } else if has_match(lines, domain) {
        rewritten(lines, domain, ip)
    } else {
        lines.push(entry_line(ip, domain))
    }
}

/// The outcome of one update call.
#[derive(Debug, PartialEq, Eq)]
pub enum UpdateDecision {
    /// The target address is not a well-formed IPv4 literal; nothing was
    /// computed and nothing must be written.
    Rejected,
    /// The record already carries the target address; nothing must be
    /// written.
    AlreadyResolved,
    /// The new file contents, to be written back in full.
    Updated(Vec<String>),
}

pub(crate) fn line_is_comment(line: &str) -> (r: bool)
    ensures
        r == is_comment(line@),
{
    if line.unicode_len() == 0 {
        false
    } else {
        line.get_char(0) == '#'
    }
}

/// Build the record line `"<ip> <domain>"`.
fn entry_string(ip: &str, domain: &str) -> (r: String)
    ensures
        r@ == entry_line(ip@, domain@),
{
    proof {
        reveal_strlit(" ");
    }
    let mut s = ip.to_owned();
    s.append(" ");
    s.append(domain);
    proof {
        assert(" "@ =~= seq![' ']);
    }
    s
}

/// Decide an update of the hosts mapping: `lines` are the file's lines,
/// `domain` the name to pin, `target_ip` the address it must resolve to.
/// No line but the domain's record is ever altered, and the caller writes
/// nothing back unless the decision is `Updated`.
pub fn update_hosts_lines(lines: &Vec<String>, domain: &str, target_ip: &str) -> (d:
    UpdateDecision)
    ensures
        d is Rejected <==> !is_valid_ipv4_string(target_ip@),
        d is AlreadyResolved <==> is_valid_ipv4_string(target_ip@) && has_exact(
            views_of(lines@),
            domain@,
            target_ip@,
        ),
        is_valid_ipv4_string(target_ip@) && !has_exact(views_of(lines@), domain@, target_ip@)
            ==> d is Updated,
        d matches UpdateDecision::Updated(nl) ==> views_of(nl@) == after_update(
            views_of(lines@),
            domain@,
            target_ip@,
        ),
{
    if !is_valid_ipv4(target_ip) {
        return UpdateDecision::Rejected;
    }
    let ghost lv = views_of(lines@);
    let mut out: Vec<String> = Vec::new();
    let mut found: bool = false;
    let mut idx: usize = 0;
    proof {
        assert(views_of(out@) =~~= rewritten(lv, domain@, target_ip@).take(0));
    }
    while idx < lines.len()
        invariant
            idx <= lines.len(),
            lv == views_of(lines@),
            is_valid_ipv4_string(target_ip@),
            views_of(out@) == rewritten(lv, domain@, target_ip@).take(idx as int),
            found <==> exists|j: int|
                0 <= j < idx && line_matches(#[trigger] lv[j], domain@),
            forall|j: int|
                0 <= j < idx ==> !(line_matches(#[trigger] lv[j], domain@) && ws_split(
                    lv[j],
                )[0] == target_ip@),
        decreases lines.len() - idx,
    {
        let line: &String = &lines[idx];
        proof {
            assert(lv[idx as int] == line@);
        }
        let ghost l = line@;
        let mut replaced: bool = false;
        if line_is_comment(line.as_str()) {
            out.push(line.clone());
        } else if contains_sub(line.as_str(), domain) {
            let parts = split_ws(line.as_str());
            proof {
                assert(views_of(parts@).len() == parts@.len());
            }
            if parts.len() >= 2 {
                proof {
                    assert(views_of(parts@)[1] == parts@[1]@);
                    assert(views_of(parts@)[0] == parts@[0]@);
                }
                if str_eq(parts[1].as_str(), domain) {
                    assert(line_matches(l, domain@));
                    if str_eq(parts[0].as_str(), target_ip) {
                        assert(has_exact(lv, domain@, target_ip@));
                        return UpdateDecision::AlreadyResolved;
                    }
                    out.push(entry_string(target_ip, domain));
                    found = true;
                    replaced = true;
                } else {
                    assert(!line_matches(l, domain@));
                    out.push(line.clone());
                }
            } else {
                assert(!line_matches(l, domain@));
                out.push(line.clone());
            }
        } else {
            assert(!line_matches(l, domain@));
            out.push(line.clone());
        }
        proof {
            let rw = rewritten(lv, domain@, target_ip@);
            assert(rw.take(idx as int + 1) =~~= rw.take(idx as int).push(rw[idx as int]));
            if replaced {
                assert(rw[idx as int] == entry_line(target_ip@, domain@));
            } else {
                assert(rw[idx as int] == lv[idx as int]);
            }
            assert(views_of(out@) =~~= rw.take(idx as int + 1));
        }
        idx += 1;
    }
    proof {
        assert(!has_exact(lv, domain@, target_ip@));
        assert(rewritten(lv, domain@, target_ip@).take(lv.len() as int) =~~= rewritten(
            lv,
            domain@,
            target_ip@,
        ));
    }
    if !found {
        proof {
            assert(!has_match(lv, domain@));
            assert(rewritten(lv, domain@, target_ip@) =~~= lv);
        }
        out.push(entry_string(target_ip, domain));
        proof {
            assert(views_of(out@) =~~= lv.push(entry_line(target_ip@, domain@)));
        }
    } else {
        proof {
            assert(has_match(lv, domain@));
        }
    }
    UpdateDecision::Updated(out)
}

/// The record line built for a valid address and a whitespace-free,
/// nonempty domain tokenizes as exactly `[ip, domain]`, and is the
/// record for that domain.
pub proof fn lemma_entry_line_matches(ip: Seq<char>, domain: Seq<char>)
    requires
        is_valid_ipv4_string(ip),
        domain.len() > 0,
        forall|i: int| 0 <= i < domain.len() ==> !is_space(#[trigger] domain[i]),
    ensures
        ws_split(entry_line(ip, domain)) == seq![ip, domain],
        line_matches(entry_line(ip, domain), domain),
        ws_split(entry_line(ip, domain))[0] == ip,
{
    let e = entry_line(ip, domain);
    lemma_ipv4_chars(ip);
    let tail = seq![' '] + domain;
    assert(e =~= ip + tail);
    assert(is_space(' '));
    lemma_ws_split_word_prefix(ip, tail);
    assert(tail.skip(1) =~= domain);
    assert(ws_split(tail) == ws_split(domain));
    lemma_ws_split_single_word(domain);
    assert(ws_split(e) =~~= seq![ip, domain]);
    // the entry is the record for `domain`
    assert(e[0] == ip[0]);
    assert('#' as u32 == 0x23);
    assert(!is_comment(e));
    assert(e.subrange(ip.len() as int + 1, e.len() as int) =~= domain);
    assert(contains_seq(e, domain)) by {
        assert(e.subrange(ip.len() as int + 1, ip.len() as int + 1 + domain.len() as int) =~= domain);
    }
}

/// Idempotence: after one update call the table carries the exact record,
/// so a second call with the same arguments reports the address as already
/// resolved and leaves the contents untouched.
pub proof fn lemma_update_idempotent(lines: Seq<Seq<char>>, domain: Seq<char>, ip: Seq<char>)
    requires
        is_valid_ipv4_string(ip),
        domain.len() > 0,
        forall|i: int| 0 <= i < domain.len() ==> !is_space(#[trigger] domain[i]),
    ensures
        has_exact(after_update(lines, domain, ip), domain, ip),
        after_update(after_update(lines, domain, ip), domain, ip) == after_update(
            lines,
            domain,
            ip,
        ),
{
    lemma_entry_line_matches(ip, domain);
    let e = entry_line(ip, domain);
    if has_exact(lines, domain, ip) {
    } else if has_match(lines, domain) {
        let rw = rewritten(lines, domain, ip);
        let j = choose|j: int| 0 <= j < lines.len() && line_matches(#[trigger] lines[j], domain);
        assert(rw[j] == e);
        assert(has_exact(rw, domain, ip));
    } else {
        let nl = lines.push(e);
        assert(nl[lines.len() as int] == e);
        assert(has_exact(nl, domain, ip));
    }
}

/// No duplication: when exactly one line is the record for `domain`, one
/// update call leaves exactly one record line for it, in the same place,
/// and every other line verbatim.
pub proof fn lemma_update_no_duplicate(
    lines: Seq<Seq<char>>,
    domain: Seq<char>,
    ip: Seq<char>,
    i: int,
)
    requires
        is_valid_ipv4_string(ip),
        domain.len() > 0,
        forall|k: int| 0 <= k < domain.len() ==> !is_space(#[trigger] domain[k]),
        0 <= i < lines.len(),
        line_matches(lines[i], domain),
        forall|j: int|
            0 <= j < lines.len() && j != i ==> !line_matches(#[trigger] lines[j], domain),
    ensures
        after_update(lines, domain, ip).len() == lines.len(),
        line_matches(after_update(lines, domain, ip)[i], domain),
        forall|j: int|
            0 <= j < lines.len() && j != i ==> after_update(lines, domain, ip)[j] == lines[j]
                && !line_matches(#[trigger] after_update(lines, domain, ip)[j], domain),
{
    lemma_entry_line_matches(ip, domain);
    assert(has_match(lines, domain));
    if has_exact(lines, domain, ip) {
    } else {
        let rw = rewritten(lines, domain, ip);
        assert(rw[i] == entry_line(ip, domain));
    }
}

/// Insertion: when no line is the record for `domain`, one update call
/// appends exactly one line, the new record, and alters no existing line.
pub proof fn lemma_update_insert(lines: Seq<Seq<char>>, domain: Seq<char>, ip: Seq<char>)
    requires
        is_valid_ipv4_string(ip),
        !has_match(lines, domain),
    ensures
        after_update(lines, domain, ip) == lines.push(entry_line(ip, domain)),
        after_update(lines, domain, ip).len() == lines.len() + 1,
        forall|j: int|
            0 <= j < lines.len() ==> #[trigger] after_update(lines, domain, ip)[j] == lines[j],
{
    assert(!has_exact(lines, domain, ip));
}

/// Comment preservation: an update call never touches a comment line.
pub proof fn lemma_update_preserves_comments(
    lines: Seq<Seq<char>>,
    domain: Seq<char>,
    ip: Seq<char>,
    i: int,
)
    requires
        0 <= i < lines.len(),
        is_comment(lines[i]),
    ensures
        after_update(lines, domain, ip).len() >= lines.len(),
        after_update(lines, domain, ip)[i] == lines[i],
{
    if is_valid_ipv4_string(ip) && !has_exact(lines, domain, ip) && has_match(lines, domain) {
        assert(!line_matches(lines[i], domain));
        assert(rewritten(lines, domain, ip)[i] == lines[i]);
    }
}

/// Rejection: an invalid address leaves the table contents untouched.
pub proof fn lemma_update_rejects_invalid(lines: Seq<Seq<char>>, domain: Seq<char>, ip: Seq<char>)
    requires
        !is_valid_ipv4_string(ip),
    ensures
        after_update(lines, domain, ip) == lines,
{
}

} // verus!
