use vstd::prelude::*;

use crate::error::MailParseError;
use crate::text::{find_byte, lemma_find_byte_bounds, lemma_find_byte_none, lemma_find_byte_some,
    subrange_vec};

verus! {

/// One parsed header: its key bytes and its raw value bytes, copied out of
/// the source buffer. The key never contains the `:` separator; the value
/// excludes the separator, the spaces that follow it and the terminating
/// line ending, but keeps internal fold whitespace and newlines verbatim.
#[derive(Debug)]
pub struct MailHeader {
    pub key: Vec<u8>,
    pub value: Vec<u8>,
}

/// Whether a byte continues a folded header line when it follows a newline.
pub open spec fn is_fold_ws(b: u8) -> bool {
    b == 32 || b == 9
}

/// A newline that ends a header: one not followed by fold whitespace.
pub open spec fn terminating_nl(s: Seq<u8>, i: int) -> bool {
    s[i] == 10 && (i + 1 == s.len() || !is_fold_ws(s[i + 1]))
}

/// The least index at or after `from` holding a terminating newline.
pub open spec fn find_term_nl(s: Seq<u8>, from: int) -> Option<int>
    decreases s.len() - from,
{
    if from < 0 || from >= s.len() {
        None
    } else if terminating_nl(s, from) {
        Some(from)
    } else {
        find_term_nl(s, from + 1)
    }
}

/// The least index at or after `from` holding a byte other than a plain
/// space.
pub open spec fn find_nonspace(s: Seq<u8>, from: int) -> Option<int>
    decreases s.len() - from,
{
    if from < 0 || from >= s.len() {
        None
    } else if s[from] != 32 {
        Some(from)
    } else {
        find_nonspace(s, from + 1)
    }
}

/// The end of the value span that starts at `v_start` and is scanned up to
/// `to`: trailing newlines are not part of the value.
pub open spec fn value_end_ix(s: Seq<u8>, v_start: int, to: int) -> int
    decreases to - v_start,
{
    if to <= v_start {
        v_start
    } else if s[to - 1] != 10 {
        to
    } else {
        value_end_ix(s, v_start, to - 1)
    }
}

/// What parsing one header from `s` yields: on success the key bytes, the
/// value bytes and the count of bytes consumed; on failure the error
/// description and the offset where the problem sits.
pub open spec fn spec_parse_header(s: Seq<u8>) -> Result<(Seq<u8>, Seq<u8>, int), (Seq<char>, int)> {
    if s.len() == 0 {
        Err(("Empty string provided"@, 0))
    } else if s[0] == 32 {
        Err((
            "Header cannot start with a space; it is likely an overhanging line from a previous header"@,
            0,
        ))
    } else {
        let nl = find_byte(s, 0, 10);
        let colon = find_byte(s, 0, 58);
        if nl is Some && (colon is None || nl->0 < colon->0) {
            Err(("Unexpected newline in header key"@, nl->0))
        } else if colon is None {
            Err(("Unable to determine end of the header key component"@, s.len() as int))
        } else {
            let c = colon->0;
            match find_nonspace(s, c + 1) {
                None => Ok((s.subrange(0, c), Seq::empty(), s.len() as int)),
                Some(vs) => match find_term_nl(s, vs) {
                    Some(p) => Ok(
                        (s.subrange(0, c), s.subrange(vs, value_end_ix(s, vs, p)), p + 1),
                    ),
                    None => Ok(
                        (
                            s.subrange(0, c),
                            s.subrange(vs, value_end_ix(s, vs, s.len() as int)),
                            s.len() as int,
                        ),
                    ),
                },
            }
        }
    }
}

/// On success a header always consumes at least one byte and never more
/// than the whole buffer.
pub proof fn lemma_parse_header_consumed(s: Seq<u8>)
    ensures
        spec_parse_header(s) matches Ok((k, v, n)) ==> 1 <= n <= s.len(),
{
    if s.len() > 0 && s[0] != 32 {
        let colon = find_byte(s, 0, 58);
        if colon is Some {
            let c = colon->0;
            lemma_find_byte_bounds(s, 0, 58);
            match find_nonspace(s, c + 1) {
                None => {},
                Some(vs) => {
                    lemma_find_nonspace_bounds(s, c + 1);
                    match find_term_nl(s, vs) {
                        Some(p) => {
                            lemma_find_term_nl_bounds(s, vs);
                        },
                        None => {},
                    }
                },
            }
        }
    }
}

/// A failed header parse reports an offset inside the buffer, or just
/// past its end.
pub proof fn lemma_parse_header_err_offset(s: Seq<u8>)
    ensures
        spec_parse_header(s) matches Err((m, off)) ==> 0 <= off <= s.len(),
{
    if s.len() > 0 && s[0] != 32 {
        lemma_find_byte_bounds(s, 0, 10);
        lemma_find_byte_bounds(s, 0, 58);
    }
}

/// A newline that appears before any colon makes the header structurally
/// invalid, and the reported offset is exactly the index of that newline.
pub proof fn lemma_newline_in_key_offset(s: Seq<u8>, i: int)
    requires
        0 <= i < s.len(),
        s[0] != 32,
        s[i] == 10,
        forall|j: int| 0 <= j <= i ==> s[j] != 58,
        forall|j: int| 0 <= j < i ==> s[j] != 10,
    ensures
        spec_parse_header(s) == Err::<(Seq<u8>, Seq<u8>, int), _>(
            ("Unexpected newline in header key"@, i),
        ),
{
    lemma_find_byte_some(s, 0, 10, i);
    lemma_find_byte_bounds(s, 0, 58);
}

proof fn lemma_find_nonspace_bounds(s: Seq<u8>, from: int)
    requires
        0 <= from,
    ensures
        match find_nonspace(s, from) {
            Some(i) => from <= i < s.len() && s[i] != 32 && forall|j: int|
                from <= j < i ==> s[j] == 32,
            None => forall|j: int| from <= j < s.len() ==> s[j] == 32,
        },
    decreases s.len() - from,
{
    if from < s.len() && s[from] == 32 {
        lemma_find_nonspace_bounds(s, from + 1);
    }
}

proof fn lemma_find_nonspace_some(s: Seq<u8>, from: int, i: int)
    requires
        0 <= from <= i < s.len(),
        s[i] != 32,
        forall|j: int| from <= j < i ==> s[j] == 32,
    ensures
        find_nonspace(s, from) == Some(i),
    decreases i - from,
{
    if from < i {
        lemma_find_nonspace_some(s, from + 1, i);
    }
}

proof fn lemma_find_nonspace_none(s: Seq<u8>, from: int)
    requires
        0 <= from,
        forall|j: int| from <= j < s.len() ==> s[j] == 32,
    ensures
        find_nonspace(s, from) is None,
    decreases s.len() - from,
{
    if from < s.len() {
        lemma_find_nonspace_none(s, from + 1);
    }
}

proof fn lemma_find_term_nl_bounds(s: Seq<u8>, from: int)
    requires
        0 <= from,
    ensures
        match find_term_nl(s, from) {
            Some(i) => from <= i < s.len() && terminating_nl(s, i) && forall|j: int|
                from <= j < i ==> !terminating_nl(s, j),
            None => forall|j: int| from <= j < s.len() ==> !terminating_nl(s, j),
        },
    decreases s.len() - from,
{
    if from < s.len() && !terminating_nl(s, from) {
        lemma_find_term_nl_bounds(s, from + 1);
    }
}

proof fn lemma_find_term_nl_some(s: Seq<u8>, from: int, i: int)
    requires
        0 <= from <= i < s.len(),
        terminating_nl(s, i),
        forall|j: int| from <= j < i ==> !terminating_nl(s, j),
    ensures
        find_term_nl(s, from) == Some(i),
    decreases i - from,
{
    if from < i {
        lemma_find_term_nl_some(s, from + 1, i);
    }
}

proof fn lemma_find_term_nl_none(s: Seq<u8>, from: int)
    requires
        0 <= from,
        forall|j: int| from <= j < s.len() ==> !terminating_nl(s, j),
    ensures
        find_term_nl(s, from) is None,
    decreases s.len() - from,
{
    if from < s.len() {
        lemma_find_term_nl_none(s, from + 1);
    }
}

/// Parses one header that starts at the beginning of `raw_data`, returning
/// the header and the offset just past it.
#[verifier::loop_isolation(false)]
pub fn parse_header(raw_data: &[u8]) -> (r: Result<(MailHeader, usize), MailParseError>)
    ensures
        match spec_parse_header(raw_data@) {
            Ok((k, v, n)) => match r {
                Ok((h, consumed)) => h.key@ == k && h.value@ == v && consumed == n,
                Err(_) => false,
            },
            Err((m, off)) => match r {
                Ok(_) => false,
                Err(e) => e matches MailParseError::Generic(mm, o) && mm@ == m && o == off,
            },
        },
{
    let ghost s = raw_data@;
    let n = raw_data.len();
    if n == 0 {
        return Err(MailParseError::Generic("Empty string provided", 0));
    }
    if raw_data[0] == 32u8 {
        return Err(
            MailParseError::Generic(
                "Header cannot start with a space; it is likely an overhanging line from a previous header",
                0,
            ),
        );
    }
    // Find the key terminator: the first colon, or an earlier newline.
    let mut i: usize = 0;
    while i < n && raw_data[i] != 58u8 && raw_data[i] != 10u8
        invariant
            0 <= i <= n == s.len(),
            forall|j: int| 0 <= j < i ==> s[j] != 58 && s[j] != 10,
        decreases n - i,
    {
        i = i + 1;
    }
    if i == n {
        proof {
            lemma_find_byte_none(s, 0, 10);
            lemma_find_byte_none(s, 0, 58);
        }
        return Err(
            MailParseError::Generic("Unable to determine end of the header key component", i),
        );
    }
    if raw_data[i] == 10u8 {
        proof {
            lemma_find_byte_some(s, 0, 10, i as int);
            lemma_find_byte_bounds(s, 0, 58);
        }
        return Err(MailParseError::Generic("Unexpected newline in header key", i));
    }
    let c = i;
    proof {
        lemma_find_byte_some(s, 0, 58, c as int);
        lemma_find_byte_bounds(s, 0, 10);
    }
    // Skip the run of plain spaces that follows the colon.
    let mut vs = c + 1;
    while vs < n && raw_data[vs] == 32u8
        invariant
            c + 1 <= vs <= n == s.len(),
            forall|j: int| c + 1 <= j < vs ==> s[j] == 32,
        decreases n - vs,
    {
        vs = vs + 1;
    }
    if vs == n {
        proof {
            lemma_find_nonspace_none(s, c + 1 as int);
        }
        let key = subrange_vec(raw_data, 0, c);
        return Ok((MailHeader { key, value: Vec::new() }, n));
    }
    proof {
        lemma_find_nonspace_some(s, c + 1 as int, vs as int);
    }
    // Find the newline that ends the header: one not followed by fold
    // whitespace.
    let mut p = vs;
    while p < n && !(raw_data[p] == 10u8 && (p + 1 == n || !(raw_data[p + 1] == 32u8 || raw_data[p
        + 1] == 9u8)))
        invariant
            vs <= p <= n == s.len(),
            forall|j: int| vs <= j < p ==> !terminating_nl(s, j),
        decreases n - p,
    {
        p = p + 1;
    }
    proof {
        if p == n {
            lemma_find_term_nl_none(s, vs as int);
        } else {
            lemma_find_term_nl_some(s, vs as int, p as int);
        }
    }
    // The value ends before any trailing run of newlines.
    let mut ve = p;
    while ve > vs && raw_data[ve - 1] == 10u8
        invariant
            vs <= ve <= p <= n == s.len(),
            value_end_ix(s, vs as int, p as int) == value_end_ix(s, vs as int, ve as int),
        decreases ve,
    {
        proof {
            assert(value_end_ix(s, vs as int, ve as int) == value_end_ix(s, vs as int, ve - 1));
        }
        ve = ve - 1;
    }
    proof {
        assert(value_end_ix(s, vs as int, ve as int) == ve);
    }
    let key = subrange_vec(raw_data, 0, c);
    let value = subrange_vec(raw_data, vs, ve);
    let consumed = if p < n {
        p + 1
    } else {
        n
    };
    Ok((MailHeader { key, value }, consumed))
}

} // verus!
