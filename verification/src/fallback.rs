//! Lists of fallback prefixes: one prefix per line, in the text form that
//! ipnet reads.
use ipnet::IpNet;
use vstd::prelude::*;
use crate::failure::{failure, FailureKind, LineSource, ReadError};
use crate::net::{Cidr, Family};
use crate::text::{chars_of, trim, trimmed_end, trimmed_start};

verus! {

/// The prefix that ipnet's `IpNet::from_str` reads from `s`, keeping the
/// address as written; `None` when `s` is not a prefix.
pub uninterp spec fn ipnet_text(s: Seq<char>) -> Option<Cidr>;

/// What ipnet's parse error reads as text.
pub open spec fn parse_error_text() -> Seq<char> {
    "invalid IP address syntax"@
}

/// ipnet's `IpNet::from_str`. A prefix it reads has a length that its
/// family allows; its error displays as `invalid IP address syntax`.
#[verifier::external_body]
fn parse_ipnet(s: &str) -> (r: Result<Cidr, String>)
    ensures
        match r {
            Ok(c) => ipnet_text(s@) == Some(c) && c.wf(),
            Err(m) => ipnet_text(s@) is None && m@ == parse_error_text(),
        },
{
    match s.parse::<IpNet>() {
        Ok(IpNet::V4(n)) => Ok(Cidr { family: Family::V4, addr: u32::from(n.addr()) as u128, len: n.prefix_len() }),
        Ok(IpNet::V6(n)) => Ok(Cidr { family: Family::V6, addr: u128::from(n.addr()), len: n.prefix_len() }),
        Err(e) => Err(e.to_string()),
    }
}

/// Reads a prefix from `text`, around which whitespace is ignored.
pub fn parse_prefix(text: &str) -> (r: Result<Cidr, String>)
    ensures
        match ipnet_text(trim(text@)) {
            Some(c) => r == Ok::<Cidr, String>(c) && c.wf(),
            None => r matches Err(m) && m@ == parse_error_text(),
        },
{
    let cs = chars_of(text);
    let n = cs.len();
    let b = trimmed_start(&cs, 0, n);
    let e = trimmed_end(&cs, b, n);
    proof {
        assert(cs@.subrange(0, n as int) =~= cs@);
        assert(trim(text@) == cs@.subrange(b as int, e as int));
    }
    let inner = text.substring_char(b, e);
    parse_ipnet(inner)
}

/// The prefixes of a list, one per line, or the failure of the first line
/// that could not be read, or invalid data for the first line that is not a
/// prefix.
pub open spec fn prefix_list(lines: Seq<Result<String, ReadError>>) -> Result<Seq<Cidr>, (FailureKind, Seq<char>)>
    decreases lines.len(),
{
    if lines.len() == 0 {
        Ok(Seq::empty())
    } else {
        match prefix_list(lines.drop_last()) {
            Err(e) => Err(e),
            Ok(v) => match lines.last() {
                Err(m) => Err(failure(m)),
                Ok(line) => match ipnet_text(trim(line@)) {
                    Some(c) => Ok(v.push(c)),
                    None => Err((FailureKind::InvalidData, parse_error_text())),
                },
            },
        }
    }
}

proof fn lemma_prefix_list_err(lines: Seq<Result<String, ReadError>>, i: int)
    requires
        0 <= i <= lines.len(),
        prefix_list(lines.take(i)) is Err,
    ensures
        prefix_list(lines) == prefix_list(lines.take(i)),
    decreases lines.len() - i,
{
    if i < lines.len() {
        assert(lines.take(i + 1).drop_last() =~= lines.take(i));
        lemma_prefix_list_err(lines, i + 1);
    } else {
        assert(lines.take(i) =~= lines);
    }
}

/// Reads a list of prefixes, one per line.
pub fn load_prefixes(lines: &LineSource) -> (r: Result<Vec<Cidr>, ReadError>)
    ensures
        match prefix_list(lines@) {
            Ok(v) => r matches Ok(w) && w@ == v && forall|i: int| 0 <= i < w@.len() ==> (#[trigger] w@[i]).wf(),
            Err(e) => r matches Err(m) && failure(m) == e,
        },
{
    let mut out: Vec<Cidr> = Vec::new();
    let mut i: usize = 0;
    while i < lines.len()
        invariant
            i <= lines@.len(),
            prefix_list(lines@.take(i as int)) == Ok::<Seq<Cidr>, (FailureKind, Seq<char>)>(out@),
            forall|k: int| 0 <= k < out@.len() ==> (#[trigger] out@[k]).wf(),
        decreases lines.len() - i,
    {
        proof {
            assert(lines@.take(i + 1).drop_last() =~= lines@.take(i as int));
            assert(lines@.take(i + 1).last() == lines@[i as int]);
        }
        match &lines[i] {
            Err(e) => {
                proof {
                    lemma_prefix_list_err(lines@, i + 1);
                }
                return Err(e.copy());
            },
            Ok(line) => {
                match parse_prefix(line.as_str()) {
                    Ok(c) => {
                        out.push(c);
                    },
                    Err(m) => {
                        proof {
                            lemma_prefix_list_err(lines@, i + 1);
                        }
                        return Err(ReadError::invalid_data(m));
                    },
                }
            },
        }
        i = i + 1;
    }
    proof {
        assert(lines@.take(lines@.len() as int) =~= lines@);
    }
    Ok(out)
}

} // verus!
