use vstd::prelude::*;

use crate::codec::{lower_of, lowercase};
use crate::decode::{trim_chars, trim_str};
use crate::error::MailParseError;
use crate::text::{find_char, lemma_find_char_none, lemma_find_char_some, str_eq_chars};
use vstd::string::{StrSliceExecFns, StringExecFns};

verus! {

/// The content-type information of a message: the mimetype (lower-cased,
/// `text/plain` when missing or empty), the charset (lower-cased,
/// `us-ascii` when missing or empty) and the multipart boundary when one
/// was declared (case-preserved). The mimetype and the charset are never
/// empty.
#[derive(Debug)]
pub struct ParsedContentType {
    pub mimetype: String,
    pub charset: String,
    pub boundary: Option<String>,
}

/// The view of an optional owned string.
pub open spec fn opt_view(o: Option<String>) -> Option<Seq<char>> {
    match o {
        Some(s) => Some(s@),
        None => None,
    }
}

/// The end of the `;`-delimited token that starts at `pos`: the next
/// semicolon, or the end of the value.
pub open spec fn tok_end(s: Seq<char>, pos: int) -> int {
    let e0 = match find_char(s, pos, ';') {
        Some(i) => i,
        None => s.len() as int,
    };
    if e0 < pos {
        pos
    } else if e0 > s.len() {
        s.len() as int
    } else {
        e0
    }
}

/// What one parameter token does to the charset and boundary gathered so
/// far: its name (trimmed, lower-cased) selects the field; its value is
/// trimmed and unquoted when wrapped in a pair of double quotes. A token
/// without `=`, a parameter with an unrecognized name, and an empty
/// charset value change nothing.
pub open spec fn apply_param(
    tok: Seq<char>,
    charset: Seq<char>,
    boundary: Option<Seq<char>>,
) -> (Seq<char>, Option<Seq<char>>) {
    match find_char(tok, 0, '=') {
        None => (charset, boundary),
        Some(ix) => {
            let attr = lower_of(trim_chars(tok.subrange(0, ix)));
            let v0 = trim_chars(tok.subrange(ix + 1, tok.len() as int));
            let v = if v0.len() >= 2 && v0[0] == '"' && v0[v0.len() - 1] == '"' {
                v0.subrange(1, v0.len() - 1)
            } else {
                v0
            };
            if attr == "charset"@ {
                let lv = lower_of(v);
                if lv.len() == 0 {
                    (charset, boundary)
                } else {
                    (lv, boundary)
                }
            } else if attr == "boundary"@ {
                (charset, Some(v))
            } else {
                (charset, boundary)
            }
        },
    }
}

/// The charset and boundary after applying every parameter token from
/// `pos` to the end of the value.
pub open spec fn spec_ct_params(
    s: Seq<char>,
    pos: int,
    charset: Seq<char>,
    boundary: Option<Seq<char>>,
) -> (Seq<char>, Option<Seq<char>>)
    decreases s.len() - pos,
{
    if pos < 0 || pos >= s.len() {
        (charset, boundary)
    } else {
        let e = tok_end(s, pos);
        let st = apply_param(s.subrange(pos, e), charset, boundary);
        if e + 1 < s.len() {
            spec_ct_params(s, e + 1, st.0, st.1)
        } else {
            st
        }
    }
}

/// What parsing a content-type header value yields: the mimetype, the
/// charset and the boundary. The first `;`-delimited token (trimmed,
/// lower-cased) is the mimetype, defaulting to `text/plain` when empty;
/// the remaining tokens are parameters over the defaults `us-ascii` and
/// no boundary.
pub open spec fn spec_parse_content_type(s: Seq<char>) -> (Seq<char>, Seq<char>, Option<Seq<char>>) {
    let e = tok_end(s, 0);
    let m0 = lower_of(trim_chars(s.subrange(0, e)));
    let m = if m0.len() == 0 {
        "text/plain"@
    } else {
        m0
    };
    let st = if e + 1 < s.len() {
        spec_ct_params(s, e + 1, "us-ascii"@, None)
    } else {
        ("us-ascii"@, None)
    };
    (m, st.0, st.1)
}

/// Parses a content-type header value into its mimetype, charset and
/// boundary. A parameter token without `=` is ignored rather than
/// rejected, so this never fails.
#[verifier::loop_isolation(false)]
pub fn parse_content_type(header: &str) -> (r: Result<ParsedContentType, MailParseError>)
    ensures
        match r {
            Ok(ct) => ct.mimetype@ == spec_parse_content_type(header@).0 && ct.charset@
                == spec_parse_content_type(header@).1 && opt_view(ct.boundary)
                == spec_parse_content_type(header@).2 && ct.mimetype@.len() > 0 && ct.charset@.len()
                > 0,
            Err(_) => false,
        },
{
    let ghost s = header@;
    proof {
        reveal_strlit("text/plain");
        reveal_strlit("us-ascii");
    }
    let n = header.unicode_len();
    let mut e: usize = 0;
    while e < n && header.get_char(e) != ';'
        invariant
            0 <= e <= n == s.len(),
            forall|j: int| 0 <= j < e ==> s[j] != ';',
        decreases n - e,
    {
        e = e + 1;
    }
    proof {
        if e == n {
            lemma_find_char_none(s, 0, ';');
        } else {
            lemma_find_char_some(s, 0, ';', e as int);
        }
        assert(tok_end(s, 0) == e);
    }
    let tok = header.substring_char(0, e);
    let low = lowercase(trim_str(tok));
    let mimetype = if low.unicode_len() == 0 {
        String::from_str("text/plain")
    } else {
        low
    };
    let mut charset = String::from_str("us-ascii");
    let mut boundary: Option<String> = None;
    if e < n {
        let mut pos = e + 1;
        while pos < n
            invariant
                e + 1 <= pos,
                n == s.len(),
                charset@.len() > 0,
                spec_ct_params(s, e + 1 as int, "us-ascii"@, None) == spec_ct_params(
                    s,
                    pos as int,
                    charset@,
                    opt_view(boundary),
                ),
            decreases n - pos,
        {
            let mut e2 = pos;
            while e2 < n && header.get_char(e2) != ';'
                invariant
                    pos <= e2 <= n,
                    forall|j: int| pos <= j < e2 ==> s[j] != ';',
                decreases n - e2,
            {
                e2 = e2 + 1;
            }
            proof {
                if e2 == n {
                    lemma_find_char_none(s, pos as int, ';');
                } else {
                    lemma_find_char_some(s, pos as int, ';', e2 as int);
                }
                assert(tok_end(s, pos as int) == e2);
            }
            let tok2 = header.substring_char(pos, e2);
            let ghost tokv = tok2@;
            let tn = tok2.unicode_len();
            let mut ix: usize = 0;
            while ix < tn && tok2.get_char(ix) != '='
                invariant
                    0 <= ix <= tn == tokv.len(),
                    forall|j: int| 0 <= j < ix ==> tokv[j] != '=',
                decreases tn - ix,
            {
                ix = ix + 1;
            }
            let ghost ch_before = charset@;
            let ghost bd_before = opt_view(boundary);
            if ix < tn {
                proof {
                    lemma_find_char_some(tokv, 0, '=', ix as int);
                }
                let attr = lowercase(trim_str(tok2.substring_char(0, ix)));
                let vt = trim_str(tok2.substring_char(ix + 1, tn));
                let vn = vt.unicode_len();
                let value = if vn >= 2 && vt.get_char(0) == '"' && vt.get_char(vn - 1) == '"' {
                    vt.substring_char(1, vn - 1)
                } else {
                    vt
                };
                if str_eq_chars(attr.as_str(), "charset") {
                    let lowv = lowercase(value);
                    if lowv.unicode_len() > 0 {
                        charset = lowv;
                    }
                } else if str_eq_chars(attr.as_str(), "boundary") {
                    boundary = Some(String::from_str(value));
                }
            } else {
                proof {
                    lemma_find_char_none(tokv, 0, '=');
                }
            }
            proof {
                assert(apply_param(tokv, ch_before, bd_before) == (charset@, opt_view(boundary)));
            }
            pos = if e2 < n {
                e2 + 1
            } else {
                n
            };
        }
    }
    Ok(ParsedContentType { mimetype, charset, boundary })
}

} // verus!
