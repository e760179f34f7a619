use vstd::prelude::*;

use crate::codec::{base64_decode_bytes, base64_decoded, charset_decode, charset_decoded,
    charset_known, latin1_decode, push_char, qp_decode_robust, qp_decoded};
use crate::error::MailParseError;
use crate::header::MailHeader;
use crate::text::{find_char, is_wspace, is_wspace_char, latin1, latin1_seq,
    lemma_find_char_none, lemma_find_char_some};
use vstd::string::{StrSliceExecFns, StringExecFns};
use vstd::utf8::encode_utf8;

verus! {

/// The first index at or after `from` holding a character outside the
/// whitespace set, or the length of `l` if only whitespace remains.
pub open spec fn ws_prefix_end(l: Seq<char>, from: int) -> int
    decreases l.len() - from,
{
    if from < 0 || from >= l.len() {
        l.len() as int
    } else if !is_wspace_char(l[from]) {
        from
    } else {
        ws_prefix_end(l, from + 1)
    }
}

/// The index just past the last character before `to` that is outside the
/// whitespace set, or 0 if only whitespace precedes `to`.
pub open spec fn ws_suffix_start(l: Seq<char>, to: int) -> int
    decreases to,
{
    if to <= 0 {
        0
    } else if !is_wspace_char(l[to - 1]) {
        to
    } else {
        ws_suffix_start(l, to - 1)
    }
}

proof fn lemma_ws_suffix_start_bounds(l: Seq<char>, to: int)
    requires
        to >= 0,
    ensures
        0 <= ws_suffix_start(l, to) <= to,
    decreases to,
{
    if to > 0 && is_wspace_char(l[to - 1]) {
        lemma_ws_suffix_start_bounds(l, to - 1);
    }
}

/// `l` without its leading whitespace.
pub open spec fn trim_start_chars(l: Seq<char>) -> Seq<char> {
    l.subrange(ws_prefix_end(l, 0), l.len() as int)
}

/// `l` without leading and trailing whitespace.
pub open spec fn trim_chars(l: Seq<char>) -> Seq<char> {
    let a = ws_prefix_end(l, 0);
    let b = ws_suffix_start(l, l.len() as int);
    if a <= b {
        l.subrange(a, b)
    } else {
        Seq::empty()
    }
}

/// The decoded form of a header key: its bytes read as ISO-8859-1, with
/// surrounding whitespace removed.
pub open spec fn spec_get_key(key: Seq<u8>) -> Seq<char> {
    trim_chars(latin1_seq(key))
}

/// `t` with every underscore replaced by a space, the RFC 2047 convention
/// for Q-encoded header text.
pub open spec fn replace_underscore(t: Seq<char>) -> Seq<char> {
    t.map_values(|c: char| if c == '_' { ' ' } else { c })
}

/// What decoding the inside of one encoded word (the text between `=?`
/// and `?=`) yields, or `None` when any of its parts is unusable: a
/// missing `?` separator, an unknown transfer coding, bytes the transfer
/// coding rejects, or an unknown charset label.
pub open spec fn spec_decode_word(w: Seq<char>) -> Option<Seq<char>> {
    match find_char(w, 0, '?') {
        None => None,
        Some(d1) => match find_char(w, d1 + 1, '?') {
            None => None,
            Some(d2) => {
                let charset = w.subrange(0, d1);
                let text = w.subrange(d2 + 1, w.len() as int);
                let bytes = if w.subrange(d1 + 1, d2) == seq!['B'] {
                    base64_decoded(encode_utf8(text))
                } else if w.subrange(d1 + 1, d2) == seq!['Q'] {
                    Some(qp_decoded(encode_utf8(replace_underscore(text))))
                } else {
                    None
                };
                match bytes {
                    None => None,
                    Some(bs) => if charset_known(charset) {
                        Some(charset_decoded(charset, bs))
                    } else {
                        None
                    },
                }
            },
        },
    }
}

/// The position of the `?=` that closes an encoded word: the first `?=`
/// at or after `from` that is followed by nothing or by whitespace.
/// A `?=` in the middle of a word is skipped past.
pub open spec fn find_close(l: Seq<char>, from: int) -> Option<int>
    decreases l.len() - from,
{
    if from < 0 || from + 2 > l.len() {
        None
    } else if l[from] == '?' && l[from + 1] == '=' && (from + 2 == l.len() || is_wspace_char(
        l[from + 2],
    )) {
        Some(from)
    } else if l[from] == '?' && l[from + 1] == '=' {
        find_close(l, from + 2)
    } else {
        find_close(l, from + 1)
    }
}

proof fn lemma_find_close_bounds(l: Seq<char>, from: int)
    requires
        0 <= from,
    ensures
        find_close(l, from) matches Some(j) ==> from <= j && j + 2 <= l.len(),
    decreases l.len() - from,
{
    if from + 2 <= l.len() {
        if l[from] == '?' && l[from + 1] == '=' && (from + 2 == l.len() || is_wspace_char(
            l[from + 2],
        )) {
        } else if l[from] == '?' && l[from + 1] == '=' {
            lemma_find_close_bounds(l, from + 2);
        } else {
            lemma_find_close_bounds(l, from + 1);
        }
    }
}

/// The decoded form of one logical header line, scanning from `from`:
/// literal text is kept, an encoded word bounded by whitespace is replaced
/// by its decoding, an encoded word that fails to decode is kept
/// literally, a `=?` not at a whitespace boundary is literal text, and a
/// `=?` with no closing `?=` makes the rest of the line literal.
pub open spec fn scan_line(l: Seq<char>, from: int) -> Seq<char>
    decreases l.len() - from,
{
    if from < 0 || from >= l.len() {
        Seq::empty()
    } else if !(from + 2 <= l.len() && l[from] == '=' && l[from + 1] == '?') {
        seq![l[from]] + scan_line(l, from + 1)
    } else if !(from == 0 || is_wspace_char(l[from - 1])) {
        l.subrange(from, from + 2) + scan_line(l, from + 2)
    } else {
        match find_close(l, from + 2) {
            None => l.subrange(from, l.len() as int),
            Some(j) => {
                let frag = match spec_decode_word(l.subrange(from + 2, j)) {
                    Some(d) => d,
                    None => l.subrange(from, j + 2),
                };
                let next = if j + 2 <= from + 2 {
                    from + 2
                } else if j + 2 >= l.len() {
                    l.len() as int
                } else {
                    j + 2
                };
                frag + scan_line(l, next)
            },
        }
    }
}

/// The index of the newline that ends the line starting at `pos`, or the
/// length of `cs` when the last line has no terminator.
pub open spec fn line_break_ix(cs: Seq<char>, pos: int) -> int {
    match find_char(cs, pos, '\n') {
        Some(i) => i,
        None => cs.len() as int,
    }
}

/// The decoded fragments of all logical lines from `pos` on, each line
/// preceded by the single space that joins unfolded lines: the line is
/// taken up to its newline, a carriage return before the newline is
/// dropped, leading whitespace is trimmed, and encoded words are decoded.
pub open spec fn spec_value_from(cs: Seq<char>, pos: int) -> Seq<char>
    decreases cs.len() - pos,
{
    if pos < 0 || pos >= cs.len() {
        Seq::empty()
    } else {
        let e0 = line_break_ix(cs, pos);
        let e = if e0 < pos {
            pos
        } else if e0 > cs.len() {
            cs.len() as int
        } else {
            e0
        };
        let le = if e > pos && cs[e - 1] == '\r' {
            e - 1
        } else {
            e
        };
        let raw = cs.subrange(pos, le);
        let rest = if e + 1 < cs.len() {
            spec_value_from(cs, e + 1)
        } else {
            Seq::empty()
        };
        seq![' '] + scan_line(trim_start_chars(raw), 0) + rest
    }
}

/// The decoded form of a header value: its bytes read as ISO-8859-1,
/// split into folded lines that are trimmed and joined by single spaces,
/// with RFC 2047 encoded words decoded where they stand on whitespace
/// boundaries.
pub open spec fn spec_get_value(value: Seq<u8>) -> Seq<char> {
    let cs = latin1_seq(value);
    if cs.len() == 0 {
        Seq::empty()
    } else {
        spec_value_from(cs, 0).drop_first()
    }
}



proof fn lemma_scan_line_plain(l: Seq<char>, from: int)
    requires
        0 <= from <= l.len(),
        forall|i: int| 0 <= i < l.len() ==> l[i] != '=',
    ensures
        scan_line(l, from) == l.subrange(from, l.len() as int),
    decreases l.len() - from,
{
    if from >= l.len() {
        assert(l.subrange(from, l.len() as int) =~= Seq::<char>::empty());
    } else {
        lemma_scan_line_plain(l, from + 1);
        assert(seq![l[from]] + l.subrange(from + 1, l.len() as int) =~= l.subrange(
            from,
            l.len() as int,
        ));
    }
}

/// A plain header decodes to exactly its ISO-8859-1 characters: a key
/// with no surrounding whitespace is returned verbatim, and a value on a
/// single line, with no leading whitespace, no trailing carriage return,
/// and no `=` anywhere (so no encoded words), is returned verbatim.
pub proof fn lemma_plain_header_decodes_verbatim(key: Seq<u8>, value: Seq<u8>)
    requires
        key.len() > 0 ==> !is_wspace_char(latin1(key[0])) && !is_wspace_char(
            latin1(key[key.len() - 1]),
        ),
        forall|i: int| 0 <= i < value.len() ==> value[i] != 10 && value[i] != 61,
        value.len() > 0 ==> !is_wspace_char(latin1(value[0])),
        value.len() > 0 ==> value[value.len() - 1] != 13,
    ensures
        spec_get_key(key) == latin1_seq(key),
        spec_get_value(value) == latin1_seq(value),
{
    let k = latin1_seq(key);
    let cs = latin1_seq(value);
    assert(k.len() == key.len() && cs.len() == value.len());
    // The key: nothing is trimmed from either end.
    if key.len() == 0 {
        assert(ws_suffix_start(k, 0) == 0);
        assert(trim_chars(k) =~= k);
    } else {
        assert(!is_wspace_char(k[0]));
        assert(!is_wspace_char(k[k.len() - 1]));
        assert(ws_prefix_end(k, 0) == 0);
        assert(ws_suffix_start(k, k.len() as int) == k.len());
        assert(trim_chars(k) =~= k);
    }
    // The value: one line, nothing trimmed, and the scan keeps it whole.
    if value.len() == 0 {
        assert(spec_get_value(value) =~= cs);
    } else {
        assert(forall|j: int| 0 <= j < cs.len() ==> #[trigger] cs[j] != '\n' && cs[j] != '=');
        crate::text::lemma_find_char_none(cs, 0, '\n');
        assert(line_break_ix(cs, 0) == cs.len());
        assert(cs[cs.len() - 1] != '\r');
        let raw = cs.subrange(0, cs.len() as int);
        assert(raw =~= cs);
        assert(ws_prefix_end(raw, 0) == 0);
        assert(trim_start_chars(raw) =~= cs);
        lemma_scan_line_plain(cs, 0);
        assert(scan_line(cs, 0) =~= cs);
        assert(spec_value_from(cs, 0) == seq![' '] + scan_line(trim_start_chars(raw), 0)
            + Seq::<char>::empty());
        assert(seq![' '] + cs + Seq::<char>::empty() =~= seq![' '] + cs);
        assert((seq![' '] + cs).drop_first() =~= cs);
    }
}


proof fn lemma_no_boundary_no_decode_from(l: Seq<char>, from: int)
    requires
        0 <= from <= l.len(),
        forall|v: int|
            0 <= v && v + 2 <= l.len() && #[trigger] l[v] == '=' && l[v + 1] == '?' ==> v > 0
                && !is_wspace_char(l[v - 1]),
    ensures
        scan_line(l, from) == l.subrange(from, l.len() as int),
    decreases l.len() - from,
{
    if from >= l.len() {
        assert(l.subrange(from, l.len() as int) =~= Seq::<char>::empty());
    } else if from + 2 <= l.len() && l[from] == '=' && l[from + 1] == '?' {
        lemma_no_boundary_no_decode_from(l, from + 2);
        assert(l.subrange(from, from + 2) + l.subrange(from + 2, l.len() as int) =~= l.subrange(
            from,
            l.len() as int,
        ));
    } else {
        lemma_no_boundary_no_decode_from(l, from + 1);
        assert(seq![l[from]] + l.subrange(from + 1, l.len() as int) =~= l.subrange(
            from,
            l.len() as int,
        ));
    }
}

/// An encoded word opens only at a whitespace boundary: in a line where
/// every `=?` is directly preceded by a non-whitespace character, nothing
/// is decoded and the line is kept unchanged.
pub proof fn lemma_no_boundary_no_decode(l: Seq<char>)
    requires
        forall|v: int|
            0 <= v && v + 2 <= l.len() && #[trigger] l[v] == '=' && l[v + 1] == '?' ==> v > 0
                && !is_wspace_char(l[v - 1]),
    ensures
        scan_line(l, 0) == l,
{
    lemma_no_boundary_no_decode_from(l, 0);
    assert(l.subrange(0, l.len() as int) =~= l);
}

/// Removes leading and trailing whitespace from a string slice.
#[verifier::loop_isolation(false)]
pub(crate) fn trim_str<'a>(s: &'a str) -> (t: &'a str)
    ensures
        t@ == trim_chars(s@),
{
    let ghost l = s@;
    let n = s.unicode_len();
    let mut a: usize = 0;
    while a < n && is_wspace(s.get_char(a))
        invariant
            0 <= a <= n == l.len(),
            ws_prefix_end(l, 0) == ws_prefix_end(l, a as int),
        decreases n - a,
    {
        proof {
            assert(ws_prefix_end(l, a as int) == ws_prefix_end(l, a + 1));
        }
        a = a + 1;
    }
    let mut b: usize = n;
    while b > a && is_wspace(s.get_char(b - 1))
        invariant
            a <= b <= n,
            a == n || a + 1 <= b,
            ws_suffix_start(l, n as int) == ws_suffix_start(l, b as int),
        decreases b,
    {
        proof {
            assert(ws_suffix_start(l, b as int) == ws_suffix_start(l, b - 1));
        }
        b = b - 1;
    }
    let t = s.substring_char(a, b);
    proof {
        lemma_ws_suffix_start_bounds(l, n as int);
        assert(t@ =~= trim_chars(l));
    }
    t
}

/// Decodes the fields of one encoded word, given the text between the
/// opening `=?` and the closing `?=`.
#[verifier::loop_isolation(false)]
fn decode_word(word: &str) -> (r: Result<String, MailParseError>)
    ensures
        match spec_decode_word(word@) {
            Some(d) => match r {
                Ok(s) => s@ == d,
                Err(_) => false,
            },
            None => r is Err,
        },
{
    let ghost w = word@;
    let n = word.unicode_len();
    let mut d1: usize = 0;
    while d1 < n && word.get_char(d1) != '?'
        invariant
            0 <= d1 <= n == w.len(),
            forall|j: int| 0 <= j < d1 ==> w[j] != '?',
        decreases n - d1,
    {
        d1 = d1 + 1;
    }
    if d1 == n {
        proof {
            lemma_find_char_none(w, 0, '?');
        }
        return Err(MailParseError::Generic("Unable to find '?' inside encoded-word", 0));
    }
    proof {
        lemma_find_char_some(w, 0, '?', d1 as int);
    }
    let mut d2: usize = d1 + 1;
    while d2 < n && word.get_char(d2) != '?'
        invariant
            d1 + 1 <= d2 <= n,
            forall|j: int| d1 + 1 <= j < d2 ==> w[j] != '?',
        decreases n - d2,
    {
        d2 = d2 + 1;
    }
    if d2 == n {
        proof {
            lemma_find_char_none(w, d1 + 1 as int, '?');
        }
        return Err(
            MailParseError::Generic("Unable to find second '?' inside encoded-word", d1 + 1),
        );
    }
    proof {
        lemma_find_char_some(w, d1 + 1 as int, '?', d2 as int);
    }
    let charset = word.substring_char(0, d1);
    let is_b = d2 == d1 + 2 && word.get_char(d1 + 1) == 'B';
    let is_q = !is_b && d2 == d1 + 2 && word.get_char(d1 + 1) == 'Q';
    proof {
        let coding = w.subrange(d1 + 1 as int, d2 as int);
        assert(seq!['B'].len() == 1 && seq!['B'][0] == 'B');
        assert(seq!['Q'].len() == 1 && seq!['Q'][0] == 'Q');
        if d2 == d1 + 2 {
            assert(coding =~= seq![w[d1 + 1 as int]]);
            if w[d1 + 1 as int] == 'B' {
                assert(coding =~= seq!['B']);
            } else {
                assert(coding[0] != 'B');
                assert(coding != seq!['B']);
            }
            if w[d1 + 1 as int] == 'Q' {
                assert(coding =~= seq!['Q']);
            } else {
                assert(coding[0] != 'Q');
                assert(coding != seq!['Q']);
            }
        } else {
            assert(coding.len() != 1);
            assert(coding != seq!['B']);
            assert(coding != seq!['Q']);
        }
    }
    let text = word.substring_char(d2 + 1, n);
    let decoded: Vec<u8>;
    if is_b {
        match base64_decode_bytes(text.as_bytes()) {
            Some(v) => {
                decoded = v;
            },
            None => {
                return Err(MailParseError::Base64DecodeError);
            },
        }
    } else if is_q {
        let tn = text.unicode_len();
        let mut rep = String::new();
        let mut i: usize = 0;
        while i < tn
            invariant
                0 <= i <= tn == text@.len(),
                rep@ == replace_underscore(text@.subrange(0, i as int)),
            decreases tn - i,
        {
            let c = text.get_char(i);
            let ghost rep_before = rep@;
            push_char(&mut rep, if c == '_' { ' ' } else { c });
            proof {
                assert(replace_underscore(text@.subrange(0, i + 1 as int)) =~= rep_before.push(
                    if text@[i as int] == '_' { ' ' } else { text@[i as int] },
                ));
            }
            i = i + 1;
        }
        proof {
            assert(text@.subrange(0, tn as int) =~= text@);
        }
        decoded = qp_decode_robust(rep.as_str().as_bytes());
    } else {
        return Err(
            MailParseError::Generic("Unknown transfer-coding name found in encoded-word", d1 + 1),
        );
    }
    match charset_decode(charset, decoded.as_slice()) {
        Some(s) => Ok(s),
        None => Err(MailParseError::Generic("Unknown charset found in encoded-word", 0)),
    }
}

/// Finds the `?=` that closes an encoded word, starting at `start`.
#[verifier::loop_isolation(false)]
fn find_close_from(line: &str, start: usize) -> (r: Option<usize>)
    ensures
        match r {
            Some(j) => find_close(line@, start as int) == Some(j as int) && start <= j && j + 2
                <= line@.len(),
            None => find_close(line@, start as int) is None,
        },
{
    let ghost l = line@;
    let n = line.unicode_len();
    let mut from = start;
    while n >= 2 && from <= n - 2 && !(line.get_char(from) == '?' && line.get_char(from + 1)
        == '=' && (from + 2 == n || is_wspace(line.get_char(from + 2))))
        invariant
            start <= from,
            n == l.len(),
            find_close(l, start as int) == find_close(l, from as int),
        decreases n - from,
    {
        if line.get_char(from) == '?' && line.get_char(from + 1) == '=' {
            proof {
                assert(find_close(l, from as int) == find_close(l, from + 2));
            }
            from = from + 2;
        } else {
            proof {
                assert(find_close(l, from as int) == find_close(l, from + 1));
            }
            from = from + 1;
        }
    }
    if n >= 2 && from <= n - 2 {
        Some(from)
    } else {
        None
    }
}

/// Appends to `result` the decoded form of one logical line.
#[verifier::loop_isolation(false)]
fn scan_encoded_words(line: &str, result: &mut String)
    ensures
        final(result)@ == old(result)@ + scan_line(line@, 0),
{
    let ghost l = line@;
    let n = line.unicode_len();
    let mut from: usize = 0;
    while from < n
        invariant
            0 <= from,
            n == l.len(),
            result@ + scan_line(l, from as int) == old(result)@ + scan_line(l, 0),
        decreases n - from,
    {
        let ghost result_before = result@;
        let c0 = line.get_char(from);
        let two = from + 1 < n && c0 == '=' && line.get_char(from + 1) == '?';
        if !two {
            push_char(result, c0);
            proof {
                assert(result_before + (seq![l[from as int]] + scan_line(l, from + 1)) =~= result@
                    + scan_line(l, from + 1));
            }
            from = from + 1;
        } else if !(from == 0 || is_wspace(line.get_char(from - 1))) {
            push_char(result, '=');
            push_char(result, '?');
            proof {
                assert(l.subrange(from as int, from + 2) =~= seq!['=', '?']);
                assert(result_before + (l.subrange(from as int, from + 2) + scan_line(l, from + 2))
                    =~= result@ + scan_line(l, from + 2));
            }
            from = from + 2;
        } else {
            proof {
                lemma_find_close_bounds(l, from + 2);
            }
            match find_close_from(line, from + 2) {
                None => {
                    let rest = line.substring_char(from, n);
                    result.append(rest);
                    proof {
                        assert(scan_line(l, n as int) =~= Seq::<char>::empty());
                        assert(result_before + l.subrange(from as int, n as int) =~= result@);
                        assert(result@ + scan_line(l, n as int) =~= result@);
                    }
                    from = n;
                },
                Some(j) => {
                    let word = line.substring_char(from + 2, j);
                    match decode_word(word) {
                        Ok(decoded) => {
                            result.append(decoded.as_str());
                        },
                        Err(_) => {
                            let lit = line.substring_char(from, j + 2);
                            result.append(lit);
                        },
                    }
                    proof {
                        let frag = match spec_decode_word(l.subrange(from + 2, j as int)) {
                            Some(d) => d,
                            None => l.subrange(from as int, j + 2),
                        };
                        assert(result_before + (frag + scan_line(l, j + 2)) =~= result@
                            + scan_line(l, j + 2));
                    }
                    from = j + 2;
                },
            }
        }
    }
    proof {
        assert(result@ + scan_line(l, from as int) =~= result@);
    }
}

impl MailHeader {
    /// The header's key, decoded as ISO-8859-1 and trimmed of surrounding
    /// whitespace.
    pub fn get_key(&self) -> (r: Result<String, MailParseError>)
        ensures
            match r {
                Ok(k) => k@ == spec_get_key(self.key@),
                Err(_) => false,
            },
    {
        let s = latin1_decode(self.key.as_slice());
        let t = trim_str(s.as_str());
        Ok(String::from_str(t))
    }

    /// The header's value, decoded for display: folded lines are joined
    /// by single spaces and RFC 2047 encoded words are decoded.
    #[verifier::loop_isolation(false)]
    pub fn get_value(&self) -> (r: Result<String, MailParseError>)
        ensures
            match r {
                Ok(v) => v@ == spec_get_value(self.value@),
                Err(_) => false,
            },
    {
        let s = latin1_decode(self.value.as_slice());
        let sref = s.as_str();
        let n = sref.unicode_len();
        let ghost cs = s@;
        let mut result = String::new();
        let mut pos: usize = 0;
        let mut first_line: bool = true;
        while pos < n
            invariant
                0 <= pos,
                n == cs.len(),
                first_line ==> pos == 0 && result@ == Seq::<char>::empty(),
                !first_line ==> n > 0 && result@ + spec_value_from(cs, pos as int)
                    == spec_value_from(cs, 0).drop_first(),
            decreases n - pos,
        {
            let ghost pos0 = pos as int;
            // Find the end of the current physical line.
            let mut e = pos;
            while e < n && sref.get_char(e) != '\n'
                invariant
                    pos <= e <= n,
                    forall|j: int| pos <= j < e ==> cs[j] != '\n',
                decreases n - e,
            {
                e = e + 1;
            }
            proof {
                if e == n {
                    lemma_find_char_none(cs, pos as int, '\n');
                } else {
                    lemma_find_char_some(cs, pos as int, '\n', e as int);
                }
            }
            // Drop a carriage return that sits just before the newline or
            // the end of the buffer.
            let le = if e > pos && sref.get_char(e - 1) == '\r' {
                e - 1
            } else {
                e
            };
            let raw = sref.substring_char(pos, le);
            // Trim the leading whitespace of the continuation line.
            let rn = raw.unicode_len();
            let mut a: usize = 0;
            while a < rn && is_wspace(raw.get_char(a))
                invariant
                    0 <= a <= rn == raw@.len(),
                    ws_prefix_end(raw@, 0) == ws_prefix_end(raw@, a as int),
                decreases rn - a,
            {
                proof {
                    assert(ws_prefix_end(raw@, a as int) == ws_prefix_end(raw@, a + 1));
                }
                a = a + 1;
            }
            let line = raw.substring_char(a, rn);
            proof {
                assert(line@ =~= trim_start_chars(raw@));
            }
            let ghost result_entry = result@;
            if !first_line {
                push_char(&mut result, ' ');
            }
            let ghost result_mid = result@;
            scan_encoded_words(line, &mut result);
            proof {
                let fragment = scan_line(trim_start_chars(cs.subrange(pos0, le as int)), 0);
                assert(spec_value_from(cs, pos0) == seq![' '] + fragment + spec_value_from(
                    cs,
                    e + 1,
                ));
                if first_line {
                    assert(result@ =~= fragment);
                    assert((seq![' '] + fragment + spec_value_from(cs, e + 1)).drop_first() =~=
                        fragment + spec_value_from(cs, e + 1));
                    assert(result@ + spec_value_from(cs, e + 1) =~= spec_value_from(
                        cs,
                        0,
                    ).drop_first());
                } else {
                    assert(result_mid =~= result_entry + seq![' ']);
                    assert(result@ =~= result_entry + seq![' '] + fragment);
                    assert(result_entry + (seq![' '] + fragment + spec_value_from(cs, e + 1)) =~= (
                    result_entry + seq![' '] + fragment) + spec_value_from(cs, e + 1));
                    assert(result@ + spec_value_from(cs, e + 1) =~= spec_value_from(
                        cs,
                        0,
                    ).drop_first());
                }
            }
            first_line = false;
            pos = if e < n {
                e + 1
            } else {
                n
            };
        }
        proof {
            assert(cs == latin1_seq(self.value@));
            if first_line {
                assert(cs.len() == 0);
                assert(result@ == spec_get_value(self.value@));
            } else {
                assert(cs.len() > 0);
                assert(spec_value_from(cs, pos as int) =~= Seq::<char>::empty());
                assert(result@ + Seq::<char>::empty() =~= result@);
                assert(result@ == spec_value_from(cs, 0).drop_first());
                assert(result@ == spec_get_value(self.value@));
            }
        }
        Ok(result)
    }
}

} // verus!
