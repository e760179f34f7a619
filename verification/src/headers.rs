use vstd::prelude::*;

use crate::decode::{spec_get_key, spec_get_value};
use crate::error::MailParseError;
use crate::header::{MailHeader, parse_header, spec_parse_header, lemma_parse_header_consumed,
    lemma_parse_header_err_offset};
use crate::text::str_eq_chars;
use vstd::slice::slice_subrange;

verus! {

/// The key and value bytes of one header, as a mathematical value.
pub open spec fn header_model(h: MailHeader) -> (Seq<u8>, Seq<u8>) {
    (h.key@, h.value@)
}

/// What parsing a header block from `s`, starting at `ix`, yields: the
/// headers in source order and the offset just past the block, which ends
/// at a blank line (bare newline or CR LF) or at the end of the buffer. A
/// CR not followed by a newline is an error; all offsets are absolute.
pub open spec fn spec_parse_headers(s: Seq<u8>, ix: int) -> Result<
    (Seq<(Seq<u8>, Seq<u8>)>, int),
    (Seq<char>, int),
>
    decreases s.len() - ix,
{
    match spec_parse_header(s.subrange(ix, s.len() as int)) {
        Err((m, off)) => Err((m, off + ix)),
        Ok((k, v, n)) => {
            let j = ix + (if n < 1 {
                1
            } else {
                n
            });
            if j >= s.len() {
                Ok((seq![(k, v)], j))
            } else if s[j] == 10 {
                Ok((seq![(k, v)], j + 1))
            } else if s[j] == 13 {
                if j + 1 < s.len() && s[j + 1] == 10 {
                    Ok((seq![(k, v)], j + 2))
                } else {
                    Err(("Headers were followed by an unexpected lone CR character!"@, 0))
                }
            } else {
                match spec_parse_headers(s, j) {
                    Ok((hs, e)) => Ok((seq![(k, v)] + hs, e)),
                    Err(em) => Err(em),
                }
            }
        },
    }
}

/// Parses the header block at the start of `raw_data`, returning the
/// headers in source order and the offset of the body that follows them.
#[verifier::loop_isolation(false)]
pub fn parse_headers(raw_data: &[u8]) -> (r: Result<(Vec<MailHeader>, usize), MailParseError>)
    ensures
        match spec_parse_headers(raw_data@, 0) {
            Ok((hs, e)) => match r {
                Ok((headers, consumed)) => headers@.map_values(
                    |h: MailHeader| header_model(h),
                ) == hs && consumed == e,
                Err(_) => false,
            },
            Err((m, off)) => match r {
                Ok(_) => false,
                Err(e) => e matches MailParseError::Generic(mm, o) && mm@ == m && o == off,
            },
        },
{
    let ghost s = raw_data@;
    let ghost f = |h: MailHeader| header_model(h);
    let mut headers: Vec<MailHeader> = Vec::new();
    let mut ix: usize = 0;
    loop
        invariant
            0 <= ix <= s.len(),
            match spec_parse_headers(s, ix as int) {
                Ok((hs, e)) => spec_parse_headers(s, 0) matches Ok((hs0, e0)) && hs0
                    == headers@.map_values(f) + hs && e0 == e,
                Err(em) => spec_parse_headers(s, 0) == Err::<(Seq<(Seq<u8>, Seq<u8>)>, int), _>(em),
            },
        decreases s.len() - ix,
    {
        let sub = slice_subrange(raw_data, ix, raw_data.len());
        proof {
            lemma_parse_header_consumed(sub@);
            lemma_parse_header_err_offset(sub@);
        }
        match parse_header(sub) {
            Err(e) => {
                match e {
                    MailParseError::Generic(description, position) => {
                        return Err(MailParseError::Generic(description, position + ix));
                    },
                    err => {
                        return Err(err);
                    },
                }
            },
            Ok((header, n)) => {
                let ghost k = header.key@;
                let ghost v = header.value@;
                let ghost headers_before = headers@;
                headers.push(header);
                proof {
                    assert(headers@.map_values(f) =~= headers_before.map_values(f) + seq![
                        (k, v),
                    ]);
                }
                let ix_prev = ix;
                ix = ix + n;
                if ix >= raw_data.len() {
                    return Ok((headers, ix));
                } else if raw_data[ix] == 10u8 {
                    return Ok((headers, ix + 1));
                } else if raw_data[ix] == 13u8 {
                    if ix + 1 < raw_data.len() && raw_data[ix + 1] == 10u8 {
                        return Ok((headers, ix + 2));
                    } else {
                        return Err(
                            MailParseError::Generic(
                                "Headers were followed by an unexpected lone CR character!",
                                0,
                            ),
                        );
                    }
                }
                proof {
                    assert(spec_parse_headers(s, ix_prev as int) matches Ok((hs1, e1)) ==> hs1
                        =~= seq![(k, v)] + (match spec_parse_headers(s, ix as int) {
                        Ok((hs2, e2)) => hs2,
                        Err(_) => Seq::empty(),
                    }));
                    match spec_parse_headers(s, ix as int) {
                        Ok((hs2, e2)) => {
                            assert(headers_before.map_values(f) + (seq![(k, v)] + hs2) =~= headers@
                                .map_values(f) + hs2);
                        },
                        Err(_) => {},
                    }
                }
            },
        }
    }
}


/// A successful header block parse ends past where it started and no
/// later than the end of the buffer.
pub proof fn lemma_parse_headers_bounds(s: Seq<u8>, ix: int)
    requires
        0 <= ix <= s.len(),
    ensures
        spec_parse_headers(s, ix) matches Ok((hs, e)) ==> ix < e <= s.len(),
    decreases s.len() - ix,
{
    lemma_parse_header_consumed(s.subrange(ix, s.len() as int));
    match spec_parse_header(s.subrange(ix, s.len() as int)) {
        Ok((k, v, n)) => {
            let j = ix + (if n < 1 {
                1
            } else {
                n
            });
            if !(j >= s.len() || s[j] == 10 || s[j] == 13) {
                lemma_parse_headers_bounds(s, j);
            }
        },
        Err(_) => {},
    }
}

/// The decoded value of the first header whose decoded key equals `key`,
/// scanning in source order.
pub open spec fn spec_first_value(hs: Seq<(Seq<u8>, Seq<u8>)>, key: Seq<char>) -> Option<Seq<char>>
    decreases hs.len(),
{
    if hs.len() == 0 {
        None
    } else if spec_get_key(hs[0].0) == key {
        Some(spec_get_value(hs[0].1))
    } else {
        spec_first_value(hs.drop_first(), key)
    }
}

/// The decoded values of every header whose decoded key equals `key`, in
/// source order.
pub open spec fn spec_all_values(hs: Seq<(Seq<u8>, Seq<u8>)>, key: Seq<char>) -> Seq<Seq<char>>
    decreases hs.len(),
{
    if hs.len() == 0 {
        Seq::empty()
    } else {
        let rest = spec_all_values(hs.drop_first(), key);
        if spec_get_key(hs[0].0) == key {
            seq![spec_get_value(hs[0].1)] + rest
        } else {
            rest
        }
    }
}

/// The two lookups agree: a key has no first value exactly when it has no
/// values at all, and when it has one, the first value heads the list of
/// all values, which is in source order by construction.
pub proof fn lemma_first_value_heads_all_values(hs: Seq<(Seq<u8>, Seq<u8>)>, key: Seq<char>)
    ensures
        spec_first_value(hs, key) is None <==> spec_all_values(hs, key) == Seq::<Seq<char>>::empty(),
        spec_first_value(hs, key) matches Some(v) ==> spec_all_values(hs, key).len() > 0
            && spec_all_values(hs, key)[0] == v,
    decreases hs.len(),
{
    if hs.len() > 0 {
        lemma_first_value_heads_all_values(hs.drop_first(), key);
        if spec_get_key(hs[0].0) == key {
            assert(spec_all_values(hs, key).len() > 0);
        }
    }
}

/// Lookup of decoded header values by exact, case-sensitive key.
pub trait MailHeaderMap {
    /// The key and value bytes of the headers scanned by the lookups, in
    /// source order.
    spec fn header_seq(&self) -> Seq<(Seq<u8>, Seq<u8>)>;

    /// The decoded value of the first header whose decoded key equals
    /// `key`, or `None` when no header matches.
    fn get_first_value(&self, key: &str) -> (r: Result<Option<String>, MailParseError>)
        ensures
            match r {
                Ok(Some(v)) => spec_first_value(self.header_seq(), key@) == Some(v@),
                Ok(None) => spec_first_value(self.header_seq(), key@) is None,
                Err(_) => false,
            },
    ;

    /// The decoded values of every header whose decoded key equals `key`,
    /// in source order; empty when no header matches.
    fn get_all_values(&self, key: &str) -> (r: Result<Vec<String>, MailParseError>)
        ensures
            match r {
                Ok(vs) => vs@.map_values(|s: String| s@) == spec_all_values(
                    self.header_seq(),
                    key@,
                ),
                Err(_) => false,
            },
    ;
}

impl MailHeaderMap for Vec<MailHeader> {
    open spec fn header_seq(&self) -> Seq<(Seq<u8>, Seq<u8>)> {
        self@.map_values(|h: MailHeader| header_model(h))
    }

    #[verifier::loop_isolation(false)]
    fn get_first_value(&self, key: &str) -> (r: Result<Option<String>, MailParseError>) {
        let ghost hm = self.header_seq();
        proof {
            assert(hm.skip(0) =~= hm);
        }
        let mut i: usize = 0;
        while i < self.len()
            invariant
                0 <= i <= self@.len(),
                hm == self.header_seq(),
                hm.len() == self@.len(),
                spec_first_value(hm, key@) == spec_first_value(hm.skip(i as int), key@),
            decreases self@.len() - i,
        {
            let k = match self[i].get_key() {
                Ok(k) => k,
                Err(e) => {
                    return Err(e);
                },
            };
            proof {
                assert(hm.skip(i as int)[0] == hm[i as int]);
                assert(hm[i as int] == header_model(self@[i as int]));
                assert(hm.skip(i as int).drop_first() =~= hm.skip(i + 1));
            }
            if str_eq_chars(k.as_str(), key) {
                match self[i].get_value() {
                    Ok(v) => {
                        return Ok(Some(v));
                    },
                    Err(e) => {
                        return Err(e);
                    },
                }
            }
            i = i + 1;
        }
        proof {
            assert(hm.skip(i as int).len() == 0);
        }
        Ok(None)
    }

    #[verifier::loop_isolation(false)]
    fn get_all_values(&self, key: &str) -> (r: Result<Vec<String>, MailParseError>) {
        let ghost f = |s: String| s@;
        let ghost hm = self.header_seq();
        let mut values: Vec<String> = Vec::new();
        proof {
            assert(hm.skip(0) =~= hm);
            assert(values@.map_values(f) + spec_all_values(hm, key@) =~= spec_all_values(
                hm,
                key@,
            ));
        }
        let mut i: usize = 0;
        while i < self.len()
            invariant
                0 <= i <= self@.len(),
                hm == self.header_seq(),
                hm.len() == self@.len(),
                spec_all_values(hm, key@) == values@.map_values(f) + spec_all_values(
                    hm.skip(i as int),
                    key@,
                ),
            decreases self@.len() - i,
        {
            let k = match self[i].get_key() {
                Ok(k) => k,
                Err(e) => {
                    return Err(e);
                },
            };
            proof {
                assert(hm.skip(i as int)[0] == hm[i as int]);
                assert(hm[i as int] == header_model(self@[i as int]));
                assert(hm.skip(i as int).drop_first() =~= hm.skip(i + 1));
            }
            let ghost values_before = values@;
            if str_eq_chars(k.as_str(), key) {
                let v = match self[i].get_value() {
                    Ok(v) => v,
                    Err(e) => {
                        return Err(e);
                    },
                };
                let ghost vv = v@;
                values.push(v);
                proof {
                    assert(values@.map_values(f) =~= values_before.map_values(f) + seq![vv]);
                    assert(values_before.map_values(f) + (seq![vv] + spec_all_values(
                        hm.skip(i + 1),
                        key@,
                    )) =~= values@.map_values(f) + spec_all_values(hm.skip(i + 1), key@));
                }
            }
            i = i + 1;
        }
        proof {
            assert(hm.skip(i as int).len() == 0);
            assert(values@.map_values(f) + spec_all_values(hm.skip(i as int), key@) =~= values@
                .map_values(f));
        }
        Ok(values)
    }
}

} // verus!
