use vstd::prelude::*;

use crate::codec::{base64_decode_bytes, base64_decoded, charset_decode, charset_decoded,
    charset_known, lower_of, lowercase, qp_decode_robust, qp_decoded};
use crate::content_type::{ParsedContentType, opt_view, parse_content_type,
    spec_parse_content_type};
use crate::error::MailParseError;
use crate::header::MailHeader;
use crate::headers::{MailHeaderMap, header_model, parse_headers, spec_first_value,
    spec_parse_headers};
use crate::text::{str_eq_chars, subrange_vec};
use vstd::slice::slice_subrange;
use vstd::string::{StrSliceExecFns, StringExecFns};
use vstd::utf8::encode_utf8;

verus! {

/// The least index `i` at or after `from` where `key` occurs in `s`,
/// among positions with `i + key.len() < s.len()`: an occurrence that
/// ends exactly at the end of `s` is not found.
pub open spec fn spec_find_sub(s: Seq<u8>, from: int, key: Seq<u8>) -> Option<int>
    decreases s.len() - from,
{
    if from < 0 || from + key.len() >= s.len() {
        None
    } else if s.subrange(from, from + key.len()) == key {
        Some(from)
    } else {
        spec_find_sub(s, from + 1, key)
    }
}

/// Compares `key` against the bytes of `line` starting at `i`.
#[verifier::loop_isolation(false)]
fn slice_eq_at(line: &[u8], i: usize, key: &[u8]) -> (r: bool)
    requires
        i + key@.len() <= line@.len(),
    ensures
        r == (line@.subrange(i as int, i + key@.len()) == key@),
{
    let line_len = line.len();
    let mut j: usize = 0;
    while j < key.len()
        invariant
            0 <= j <= key@.len(),
            i + key@.len() <= line_len == line@.len(),
            forall|m: int| 0 <= m < j ==> line@[i + m] == key@[m],
        decreases key@.len() - j,
    {
        if line[i + j] != key[j] {
            proof {
                assert(line@.subrange(i as int, i + key@.len())[j as int] != key@[j as int]);
            }
            return false;
        }
        j = j + 1;
    }
    proof {
        assert(line@.subrange(i as int, i + key@.len()) =~= key@);
    }
    true
}

/// Finds the first occurrence of `key` in `line` at or after `ix_start`,
/// among positions where the occurrence ends strictly before the end of
/// `line`.
#[verifier::loop_isolation(false)]
pub fn find_from_u8(line: &[u8], ix_start: usize, key: &[u8]) -> (r: Option<usize>)
    requires
        key@.len() > 0,
    ensures
        match r {
            Some(i) => spec_find_sub(line@, ix_start as int, key@) == Some(i as int) && ix_start
                <= i && i + key@.len() < line@.len(),
            None => spec_find_sub(line@, ix_start as int, key@) is None,
        },
{
    let mut i = ix_start;
    while i < line.len() && line.len() - i > key.len()
        invariant
            ix_start <= i,
            spec_find_sub(line@, ix_start as int, key@) == spec_find_sub(line@, i as int, key@),
        decreases line@.len() - i,
    {
        if slice_eq_at(line, i, key) {
            return Some(i);
        }
        proof {
            assert(spec_find_sub(line@, i as int, key@) == spec_find_sub(line@, i + 1, key@));
        }
        i = i + 1;
    }
    None
}

/// The bytes of a body with transport whitespace removed: spaces, tabs,
/// carriage returns and newlines.
pub open spec fn filter_transport_ws(b: Seq<u8>) -> Seq<u8> {
    b.filter(|x: u8| !(x == 32 || x == 9 || x == 13 || x == 10))
}

/// Why decoding a body fails.
pub ghost enum BodyErr {
    /// The declared base64 transfer encoding rejected the body bytes.
    BadBase64,
    /// The declared charset label is not a known encoding.
    UnknownCharset,
}

/// The body bytes after undoing the declared transfer encoding: base64
/// after stripping transport whitespace, tolerant quoted-printable, or
/// the bytes unchanged for any other (or no) declared encoding.
pub open spec fn spec_transfer_decoded(hs: Seq<(Seq<u8>, Seq<u8>)>, body: Seq<u8>) -> Option<
    Seq<u8>,
> {
    let tc = match spec_first_value(hs, "Content-Transfer-Encoding"@) {
        Some(v) => lower_of(v),
        None => Seq::empty(),
    };
    if tc == "base64"@ {
        base64_decoded(filter_transport_ws(body))
    } else if tc == "quoted-printable"@ {
        Some(qp_decoded(body))
    } else {
        Some(body)
    }
}

/// The decoded text of a body: the transfer decoding given by the
/// headers, then the conversion given by the charset.
pub open spec fn spec_get_body(
    hs: Seq<(Seq<u8>, Seq<u8>)>,
    charset: Seq<char>,
    body: Seq<u8>,
) -> Result<Seq<char>, BodyErr> {
    match spec_transfer_decoded(hs, body) {
        None => Err(BodyErr::BadBase64),
        Some(bs) => if charset_known(charset) {
            Ok(charset_decoded(charset, bs))
        } else {
            Err(BodyErr::UnknownCharset)
        },
    }
}

/// One parsed message: its headers, its resolved content type, its raw
/// body bytes, and its parsed subparts when it is a multipart message.
#[derive(Debug)]
pub struct ParsedMail {
    pub headers: Vec<MailHeader>,
    pub ctype: ParsedContentType,
    pub body: Vec<u8>,
    pub subparts: Vec<ParsedMail>,
}

/// The mathematical value of a parsed message tree.
#[verifier::ext_equal]
pub ghost struct MailModel {
    pub headers: Seq<(Seq<u8>, Seq<u8>)>,
    pub mimetype: Seq<char>,
    pub charset: Seq<char>,
    pub boundary: Option<Seq<char>>,
    pub body: Seq<u8>,
    pub subparts: Seq<MailModel>,
}

impl ParsedMail {
    /// The mathematical value of this message tree.
    pub open spec fn model(self) -> MailModel
        decreases self,
    {
        MailModel {
            headers: self.headers@.map_values(|h: MailHeader| header_model(h)),
            mimetype: self.ctype.mimetype@,
            charset: self.ctype.charset@,
            boundary: opt_view(self.ctype.boundary),
            body: self.body@,
            subparts: models_of(self.subparts@),
        }
    }
}

/// The mathematical values of a sequence of parsed messages.
pub open spec fn models_of(parts: Seq<ParsedMail>) -> Seq<MailModel>
    decreases parts,
{
    if parts.len() == 0 {
        Seq::empty()
    } else {
        seq![parts[0].model()] + models_of(parts.drop_first())
    }
}

proof fn lemma_models_of_push(ps: Seq<ParsedMail>, x: ParsedMail)
    ensures
        models_of(ps.push(x)) == models_of(ps) + seq![x.model()],
    decreases ps.len(),
{
    if ps.len() == 0 {
        assert(ps.push(x)[0] == x);
        assert(ps.push(x).drop_first() =~= Seq::<ParsedMail>::empty());
        assert(models_of(Seq::<ParsedMail>::empty()) == Seq::<MailModel>::empty());
        assert(models_of(ps.push(x)) == seq![x.model()] + Seq::<MailModel>::empty());
        assert(seq![x.model()] + Seq::<MailModel>::empty() =~= seq![x.model()]);
        assert(models_of(ps) + seq![x.model()] =~= seq![x.model()]);
    } else {
        lemma_models_of_push(ps.drop_first(), x);
        assert(ps.push(x).drop_first() =~= ps.drop_first().push(x));
        assert(ps.push(x)[0] == ps[0]);
        assert(seq![ps[0].model()] + (models_of(ps.drop_first()) + seq![x.model()]) =~= (seq![
            ps[0].model(),
        ] + models_of(ps.drop_first())) + seq![x.model()]);
    }
}

/// Whether `s` starts with `p`.
pub open spec fn has_prefix(s: Seq<char>, p: Seq<char>) -> bool {
    p.len() <= s.len() && s.subrange(0, p.len() as int) == p
}

/// What parsing the parts of a multipart body yields, scanning from
/// `pos`: each part is the span between the newline that follows one
/// boundary delimiter occurrence and the next occurrence, parsed
/// recursively; scanning stops at a closing delimiter (one followed by
/// `--`) or when no further newline is found; a part without a following
/// delimiter is an error.
pub open spec fn spec_scan_parts(s: Seq<u8>, pos: int, bkey: Seq<u8>) -> Result<
    Seq<MailModel>,
    (Seq<char>, int),
>
    decreases s.len(), 0int, s.len() - pos,
{
    match spec_find_sub(s, pos, seq![10u8]) {
        None => Ok(Seq::empty()),
        Some(nl) => {
            let ps0 = nl + 1;
            let ps = if ps0 < 1 {
                1
            } else if ps0 > s.len() {
                s.len() as int
            } else {
                ps0
            };
            match spec_find_sub(s, ps, bkey) {
                None => Err(("Unable to terminating boundary of multipart message"@, 0)),
                Some(pe0) => {
                    let pe = if pe0 < ps {
                        ps
                    } else if pe0 > s.len() {
                        s.len() as int
                    } else {
                        pe0
                    };
                    match spec_parse_mail(s.subrange(ps, pe)) {
                        Err(e) => Err(e),
                        Ok(part) => {
                            let nb = pe + bkey.len();
                            if nb + 2 <= s.len() && s[nb] == 45 && s[nb + 1] == 45 {
                                Ok(seq![part])
                            } else if nb <= pos || nb > s.len() {
                                Ok(seq![part])
                            } else {
                                match spec_scan_parts(s, nb, bkey) {
                                    Ok(rest) => Ok(seq![part] + rest),
                                    Err(e) => Err(e),
                                }
                            }
                        },
                    }
                },
            }
        },
    }
}

/// What parsing a whole message from `s` yields: the headers, the
/// content type from the first `Content-Type` header (defaults when it
/// is absent), and either a leaf body running to the end of the buffer,
/// or, for a multipart message whose boundary delimiter occurs in the
/// body, the preamble as body plus the parsed parts. Errors from the
/// header block carry absolute offsets; a part's errors keep the
/// offsets of its own span.
pub open spec fn spec_parse_mail(s: Seq<u8>) -> Result<MailModel, (Seq<char>, int)>
    decreases s.len(), 1int, 0int,
{
    match spec_parse_headers(s, 0) {
        Err(e) => Err(e),
        Ok((hs, e0)) => {
            let ib = if e0 < 0 {
                0
            } else if e0 > s.len() {
                s.len() as int
            } else {
                e0
            };
            let ct = match spec_first_value(hs, "Content-Type"@) {
                Some(v) => spec_parse_content_type(v),
                None => ("text/plain"@, "us-ascii"@, None),
            };
            let base = MailModel {
                headers: hs,
                mimetype: ct.0,
                charset: ct.1,
                boundary: ct.2,
                body: s.subrange(ib, s.len() as int),
                subparts: Seq::empty(),
            };
            if has_prefix(ct.0, "multipart/"@) && ct.2 is Some {
                let bkey = encode_utf8("--"@ + ct.2->0);
                match spec_find_sub(s, ib, bkey) {
                    None => Ok(base),
                    Some(be0) => {
                        let be = if be0 < ib {
                            ib
                        } else if be0 > s.len() {
                            s.len() as int
                        } else {
                            be0
                        };
                        match spec_scan_parts(s, be + bkey.len(), bkey) {
                            Ok(parts) => Ok(
                                MailModel {
                                    body: s.subrange(ib, be),
                                    subparts: parts,
                                    ..base
                                },
                            ),
                            Err(e) => Err(e),
                        }
                    },
                }
            } else {
                Ok(base)
            }
        },
    }
}

impl ParsedMail {
    /// The message body, decoded: the declared transfer encoding is
    /// undone (base64 after stripping transport whitespace, or tolerant
    /// quoted-printable, or nothing), then the declared charset converts
    /// the bytes to text with replacement of invalid sequences.
    #[verifier::loop_isolation(false)]
    pub fn get_body(&self) -> (r: Result<String, MailParseError>)
        ensures
            match spec_get_body(self.headers.header_seq(), self.ctype.charset@, self.body@) {
                Ok(t) => match r {
                    Ok(b) => b@ == t,
                    Err(_) => false,
                },
                Err(be) => match r {
                    Ok(_) => false,
                    Err(e) => match be {
                        BodyErr::BadBase64 => e is Base64DecodeError,
                        BodyErr::UnknownCharset => e matches MailParseError::Generic(mm, o) && mm@
                            == "Unknown charset found"@ && o == 0,
                    },
                },
            },
    {
        proof {
            reveal_strlit("base64");
            reveal_strlit("quoted-printable");
        }
        let ghost hm = self.headers.header_seq();
        let tc = match self.headers.get_first_value("Content-Transfer-Encoding") {
            Ok(v) => v,
            Err(e) => {
                return Err(e);
            },
        };
        let ghost tcspec = match spec_first_value(hm, "Content-Transfer-Encoding"@) {
            Some(v) => lower_of(v),
            None => Seq::<char>::empty(),
        };
        let decoded: Vec<u8> = match tc {
            Some(t) => {
                let low = lowercase(t.as_str());
                if str_eq_chars(low.as_str(), "base64") {
                    let mut cleaned: Vec<u8> = Vec::new();
                    proof {
                        assert(self.body@.subrange(0, 0) =~= Seq::<u8>::empty());
                        assert(filter_transport_ws(Seq::<u8>::empty()) =~= Seq::<u8>::empty());
                    }
                    let mut i: usize = 0;
                    while i < self.body.len()
                        invariant
                            0 <= i <= self.body@.len(),
                            cleaned@ == filter_transport_ws(self.body@.subrange(0, i as int)),
                        decreases self.body@.len() - i,
                    {
                        let b = self.body[i];
                        if !(b == 32 || b == 9 || b == 13 || b == 10) {
                            cleaned.push(b);
                        }
                        proof {
                            broadcast use vstd::seq::Seq::lemma_filter_push;

                            assert(self.body@.subrange(0, i + 1 as int) =~= self.body@.subrange(
                                0,
                                i as int,
                            ).push(self.body@[i as int]));
                        }
                        i = i + 1;
                    }
                    proof {
                        assert(self.body@.subrange(0, self.body@.len() as int) =~= self.body@);
                    }
                    proof {
                        assert(tcspec == "base64"@);
                        assert(cleaned@ == filter_transport_ws(self.body@));
                    }
                    match base64_decode_bytes(cleaned.as_slice()) {
                        Some(v) => v,
                        None => {
                            proof {
                                assert(spec_transfer_decoded(hm, self.body@) is None);
                                assert(spec_get_body(hm, self.ctype.charset@, self.body@)
                                    == Err::<Seq<char>, BodyErr>(BodyErr::BadBase64));
                            }
                            return Err(MailParseError::Base64DecodeError);
                        },
                    }
                } else if str_eq_chars(low.as_str(), "quoted-printable") {
                    proof {
                        assert(tcspec == "quoted-printable"@);
                    }
                    qp_decode_robust(self.body.as_slice())
                } else {
                    proof {
                        assert(tcspec != "base64"@ && tcspec != "quoted-printable"@);
                    }
                    subrange_vec(self.body.as_slice(), 0, self.body.len())
                }
            },
            None => {
                proof {
                    assert(tcspec =~= Seq::<char>::empty());
                    assert(tcspec != "base64"@ && tcspec != "quoted-printable"@);
                }
                subrange_vec(self.body.as_slice(), 0, self.body.len())
            },
        };
        proof {
            assert(self.body@.subrange(0, self.body@.len() as int) =~= self.body@);
            assert(spec_transfer_decoded(hm, self.body@) == Some(decoded@));
        }
        match charset_decode(self.ctype.charset.as_str(), decoded.as_slice()) {
            Some(text) => Ok(text),
            None => Err(MailParseError::Generic("Unknown charset found", 0)),
        }
    }
}

/// Parses a whole message: its headers, its content type, and, for a
/// multipart message whose boundary delimiter occurs in the body, its
/// parts, recursively.
#[verifier::loop_isolation(false)]
pub fn parse_mail(raw_data: &[u8]) -> (r: Result<ParsedMail, MailParseError>)
    ensures
        match spec_parse_mail(raw_data@) {
            Ok(m) => match r {
                Ok(pm) => pm.model() == m,
                Err(_) => false,
            },
            Err((msg, off)) => match r {
                Ok(_) => false,
                Err(e) => e matches MailParseError::Generic(mm, o) && mm@ == msg && o == off,
            },
        },
    decreases raw_data@.len(),
{
    let ghost s = raw_data@;
    proof {
        crate::headers::lemma_parse_headers_bounds(s, 0);
    }
    let (headers, ix_body) = match parse_headers(raw_data) {
        Ok(v) => v,
        Err(e) => {
            return Err(e);
        },
    };
    let ghost hs = headers@.map_values(|h: MailHeader| header_model(h));
    let ctv_opt = match headers.get_first_value("Content-Type") {
        Ok(v) => v,
        Err(e) => {
            return Err(e);
        },
    };
    let ctype = match ctv_opt {
        Some(ctv) => match parse_content_type(ctv.as_str()) {
            Ok(ct) => ct,
            Err(e) => {
                return Err(e);
            },
        },
        None => ParsedContentType {
            mimetype: String::from_str("text/plain"),
            charset: String::from_str("us-ascii"),
            boundary: None,
        },
    };
    let mut body = subrange_vec(raw_data, ix_body, raw_data.len());
    let mut subparts: Vec<ParsedMail> = Vec::new();
    proof {
        reveal_strlit("multipart/");
    }
    let mt = ctype.mimetype.as_str();
    let is_multi = mt.unicode_len() >= 10 && str_eq_chars(
        mt.substring_char(0, 10),
        "multipart/",
    );
    proof {
        assert(is_multi == has_prefix(ctype.mimetype@, "multipart/"@));
    }
    if is_multi && ctype.boundary.is_some() {
        let bkey_string = match &ctype.boundary {
            Some(b) => {
                let mut k = String::from_str("--");
                k.append(b.as_str());
                k
            },
            None => String::new(),
        };
        let bkey = bkey_string.as_str().as_bytes();
        let ghost bk = bkey@;
        proof {
            let bchars = "--"@ + opt_view(ctype.boundary)->0;
            assert(bk == encode_utf8(bchars));
            reveal_strlit("--");
            assert(bchars.len() >= 2);
            assert(encode_utf8(bchars).len() >= 1);
        }
        match find_from_u8(raw_data, ix_body, bkey) {
            None => {},
            Some(ix_body_end) => {
                body = subrange_vec(raw_data, ix_body, ix_body_end);
                let mut ibe = ix_body_end + bkey.len();
                let ghost ibe0 = ibe as int;
                let mut nl_key: Vec<u8> = Vec::new();
                nl_key.push(10u8);
                proof {
                    assert(nl_key@ =~= seq![10u8]);
                }
                let mut done = false;
                while !done
                    invariant
                        nl_key@ == seq![10u8],
                        bk == bkey@,
                        bk.len() >= 1,
                        s == raw_data@,
                        ibe <= s.len(),
                        !done ==> match spec_scan_parts(s, ibe as int, bk) {
                            Ok(ps) => spec_scan_parts(s, ibe0, bk) matches Ok(ps0) && ps0
                                == models_of(subparts@) + ps,
                            Err(em) => spec_scan_parts(s, ibe0, bk) == Err::<Seq<MailModel>, _>(
                                em,
                            ),
                        },
                        done ==> (spec_scan_parts(s, ibe0, bk) matches Ok(ps0) && ps0
                            == models_of(subparts@)),
                    decreases s.len() - ibe, (if done { 0int } else { 1int }),
                {
                    match find_from_u8(raw_data, ibe, nl_key.as_slice()) {
                        None => {
                            proof {
                                assert(models_of(subparts@) + Seq::<MailModel>::empty() =~=
                                    models_of(subparts@));
                            }
                            done = true;
                        },
                        Some(nl) => {
                            let ix_part_start = nl + 1;
                            match find_from_u8(raw_data, ix_part_start, bkey) {
                                None => {
                                    return Err(
                                        MailParseError::Generic(
                                            "Unable to terminating boundary of multipart message",
                                            0,
                                        ),
                                    );
                                },
                                Some(ix_part_end) => {
                                    let part_slice = slice_subrange(
                                        raw_data,
                                        ix_part_start,
                                        ix_part_end,
                                    );
                                    let part = match parse_mail(part_slice) {
                                        Ok(p) => p,
                                        Err(e) => {
                                            return Err(e);
                                        },
                                    };
                                    let ghost subparts_before = subparts@;
                                    subparts.push(part);
                                    proof {
                                        lemma_models_of_push(subparts_before, part);
                                    }
                                    ibe = ix_part_end + bkey.len();
                                    if ibe < raw_data.len() && raw_data.len() - ibe >= 2
                                        && raw_data[ibe] == 45u8 && raw_data[ibe + 1] == 45u8 {
                                        proof {
                                            assert(models_of(subparts@) =~= models_of(
                                                subparts_before,
                                            ) + seq![part.model()]);
                                        }
                                        done = true;
                                    } else {
                                        proof {
                                            assert(models_of(subparts_before) + (seq![
                                                part.model(),
                                            ] + (match spec_scan_parts(s, ibe as int, bk) {
                                                Ok(ps2) => ps2,
                                                Err(_) => Seq::empty(),
                                            })) =~= models_of(subparts@) + (
                                            match spec_scan_parts(s, ibe as int, bk) {
                                                Ok(ps2) => ps2,
                                                Err(_) => Seq::empty(),
                                            }));
                                        }
                                    }
                                },
                            }
                        },
                    }
                }
            },
        }
    }
    let result = ParsedMail { headers, ctype, body, subparts };
    proof {
        match spec_parse_mail(s) {
            Ok(m) => {
                assert(result.model() =~= m);
            },
            Err(_) => {},
        }
    }
    Ok(result)
}

} // verus!
