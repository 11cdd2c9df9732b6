//! The state-file codec.
//!
//! The record is laid out as human-readable text, one line per repository:
//! the escaped identifier, a tab, the escaped marker, a newline. Inside a
//! field, backslash, tab and newline are written as the escape pairs `\\`,
//! `\t` and `\n`, so the separators never occur raw inside a field. Decoding
//! is strict: it accepts exactly the encodings of well-formed records.

use vstd::prelude::*;
use crate::state::StateEntry;
use crate::state::StateRecord;
use crate::state::EntrySeqView;
use crate::state::unique_keys;
use crate::state::map_of;

verus! {

/// The backslash that starts an escape pair.
pub const ESCAPE: u8 = 92;
/// Separates identifier from marker within a line: horizontal tab.
pub const FIELD_SEP: u8 = 9;
/// Ends a line: newline.
pub const LINE_SEP: u8 = 10;
/// Stands for a tab inside an escape pair: the letter t.
pub const CODE_TAB: u8 = 116;
/// Stands for a newline inside an escape pair: the letter n.
pub const CODE_NL: u8 = 110;

/// Loading fails only when the bytes are not a valid encoding of a record.
#[derive(Debug, Clone, Copy, PartialEq, Eq, Structural)]
pub enum LoadError {
    CorruptState,
}

/// How one byte of a field is written out.
pub open spec fn escape_byte(b: u8) -> Seq<u8> {
    if b == ESCAPE {
        seq![ESCAPE, ESCAPE]
    } else if b == FIELD_SEP {
        seq![ESCAPE, CODE_TAB]
    } else if b == LINE_SEP {
        seq![ESCAPE, CODE_NL]
    } else {
        seq![b]
    }
}

/// A whole field, escaped.
pub open spec fn escape(s: Seq<u8>) -> Seq<u8>
    decreases s.len(),
{
    if s.len() == 0 {
        seq![]
    } else {
        escape_byte(s[0]) + escape(s.skip(1))
    }
}

/// One line: escaped identifier, tab, escaped marker, newline.
pub open spec fn encode_entry(e: (Seq<u8>, Seq<u8>)) -> Seq<u8> {
    escape(e.0) + seq![FIELD_SEP] + escape(e.1) + seq![LINE_SEP]
}

/// The whole record, entry by entry in stored order.
pub open spec fn encode_entries(kv: Seq<(Seq<u8>, Seq<u8>)>) -> Seq<u8>
    decreases kv.len(),
{
    if kv.len() == 0 {
        seq![]
    } else {
        encode_entry(kv[0]) + encode_entries(kv.skip(1))
    }
}

/// The second byte of a valid escape pair.
pub open spec fn is_escape_code(b: u8) -> bool {
    b == ESCAPE || b == CODE_TAB || b == CODE_NL
}

/// The byte an escape pair stands for.
pub open spec fn unescape_pair(b: u8) -> u8 {
    if b == CODE_TAB {
        FIELD_SEP
    } else if b == CODE_NL {
        LINE_SEP
    } else {
        ESCAPE
    }
}

/// Reads one escaped field up to its delimiter; yields the field and what
/// follows the delimiter, or nothing if the bytes are malformed.
pub open spec fn parse_field(s: Seq<u8>, delim: u8) -> Option<(Seq<u8>, Seq<u8>)>
    decreases s.len(),
{
    if s.len() == 0 {
        None
    } else if s[0] == delim {
        Some((seq![], s.skip(1)))
    } else if s[0] == ESCAPE {
        if s.len() < 2 || !is_escape_code(s[1]) {
            None
        } else {
            match parse_field(s.skip(2), delim) {
                Some(p) => Some((seq![unescape_pair(s[1])] + p.0, p.1)),
                None => None,
            }
        }
    } else if s[0] == FIELD_SEP || s[0] == LINE_SEP {
        None
    } else {
        match parse_field(s.skip(1), delim) {
            Some(p) => Some((seq![s[0]] + p.0, p.1)),
            None => None,
        }
    }
}

proof fn lemma_parse_field_len(s: Seq<u8>, delim: u8)
    ensures
        parse_field(s, delim) matches Some(p) ==> p.1.len() < s.len(),
    decreases s.len(),
{
    if s.len() > 0 && s[0] != delim {
        lemma_parse_field_len(s.skip(1), delim);
        if s.len() >= 2 {
            lemma_parse_field_len(s.skip(2), delim);
        }
    }
}

/// Reads a whole record: a sequence of lines.
pub open spec fn parse_entries(s: Seq<u8>) -> Option<Seq<(Seq<u8>, Seq<u8>)>>
    decreases s.len(),
    via parse_entries_decreases
{
    if s.len() == 0 {
        Some(seq![])
    } else {
        match parse_field(s, FIELD_SEP) {
            None => None,
            Some(kp) => match parse_field(kp.1, LINE_SEP) {
                None => None,
                Some(vp) => match parse_entries(vp.1) {
                    None => None,
                    Some(rest) => Some(seq![(kp.0, vp.0)] + rest),
                },
            },
        }
    }
}

#[via_fn]
proof fn parse_entries_decreases(s: Seq<u8>) {
    lemma_parse_field_len(s, FIELD_SEP);
    match parse_field(s, FIELD_SEP) {
        None => {}
        Some(kp) => {
            lemma_parse_field_len(kp.1, LINE_SEP);
        }
    }
}

/// What decoding accepts: exactly the parses whose keys are distinct.
pub open spec fn decode_spec(s: Seq<u8>) -> Option<Seq<(Seq<u8>, Seq<u8>)>> {
    match parse_entries(s) {
        Some(kv) => if unique_keys(kv) {
            Some(kv)
        } else {
            None
        },
        None => None,
    }
}

/// An escaped field followed by its delimiter parses back to the field.
proof fn lemma_parse_escaped(s: Seq<u8>, delim: u8, rest: Seq<u8>)
    requires
        delim == FIELD_SEP || delim == LINE_SEP,
    ensures
        parse_field(escape(s) + seq![delim] + rest, delim) == Some((s, rest)),
    decreases s.len(),
{
    let full = escape(s) + seq![delim] + rest;
    if s.len() == 0 {
        assert(full =~= seq![delim] + rest);
        assert(full[0] == delim);
        assert(full.skip(1) =~= rest);
    } else {
        let b = s[0];
        let tail = s.skip(1);
        lemma_parse_escaped(tail, delim, rest);
        assert(escape(s) == escape_byte(b) + escape(tail));
        if b == ESCAPE || b == FIELD_SEP || b == LINE_SEP {
            let code: u8 = if b == ESCAPE {
                ESCAPE
            } else if b == FIELD_SEP {
                CODE_TAB
            } else {
                CODE_NL
            };
            assert(escape_byte(b) =~= seq![ESCAPE, code]);
            assert(full[0] == ESCAPE && full[0] != delim);
            assert(full.len() >= 2 && full[1] == code);
            assert(is_escape_code(code));
            assert(unescape_pair(code) == b);
            assert(full.skip(2) =~= escape(tail) + seq![delim] + rest);
            assert(seq![b] + tail =~= s);
        } else {
            assert(escape_byte(b) =~= seq![b]);
            assert(full[0] == b);
            assert(b != delim && b != ESCAPE && b != FIELD_SEP && b != LINE_SEP);
            assert(full.skip(1) =~= escape(tail) + seq![delim] + rest);
            assert(seq![b] + tail =~= s);
        }
    }
}

/// Round trip: every encoded record parses back to the very same entries.
pub proof fn lemma_parse_encode(kv: Seq<(Seq<u8>, Seq<u8>)>)
    ensures
        parse_entries(encode_entries(kv)) == Some(kv),
    decreases kv.len(),
{
    if kv.len() == 0 {
    } else {
        let e = kv[0];
        let tail = encode_entries(kv.skip(1));
        let after_key = escape(e.1) + seq![LINE_SEP] + tail;
        assert(encode_entries(kv) =~= escape(e.0) + seq![FIELD_SEP] + after_key);
        lemma_parse_escaped(e.0, FIELD_SEP, after_key);
        assert(after_key =~= escape(e.1) + seq![LINE_SEP] + tail);
        lemma_parse_escaped(e.1, LINE_SEP, tail);
        lemma_parse_encode(kv.skip(1));
        assert(encode_entries(kv).len() > 0);
        assert(e == (e.0, e.1));
        assert(seq![(e.0, e.1)] + kv.skip(1) =~= kv);
    }
}

/// Round trip at the level of accepted decodings.
pub proof fn lemma_decode_encode(kv: Seq<(Seq<u8>, Seq<u8>)>)
    requires
        unique_keys(kv),
    ensures
        decode_spec(encode_entries(kv)) == Some(kv),
{
    lemma_parse_encode(kv);
}

/// The converse: a field that parses re-escapes to exactly the bytes read.
proof fn lemma_parse_field_sound(s: Seq<u8>, delim: u8)
    requires
        delim == FIELD_SEP || delim == LINE_SEP,
    ensures
        parse_field(s, delim) matches Some(p) ==> escape(p.0) + seq![delim] + p.1 == s,
    decreases s.len(),
{
    if s.len() == 0 {
    } else if s[0] == delim {
        match parse_field(s, delim) {
            None => {}
            Some(p) => {
                assert(escape(p.0) + seq![delim] + p.1 =~= s);
            }
        }
    } else if s[0] == ESCAPE {
        if s.len() >= 2 && is_escape_code(s[1]) {
            lemma_parse_field_sound(s.skip(2), delim);
            match parse_field(s.skip(2), delim) {
                None => {}
                Some(q) => {
                    let c = unescape_pair(s[1]);
                    assert(escape_byte(c) =~= seq![ESCAPE, s[1]]);
                    let p0 = seq![c] + q.0;
                    assert(p0[0] == c && p0.skip(1) =~= q.0);
                    assert(escape(p0) == escape_byte(c) + escape(q.0));
                    assert(escape(p0) + seq![delim] + q.1 =~= seq![ESCAPE, s[1]] + (escape(q.0)
                        + seq![delim] + q.1));
                    assert(seq![ESCAPE, s[1]] + s.skip(2) =~= s);
                }
            }
        }
    } else if s[0] == FIELD_SEP || s[0] == LINE_SEP {
    } else {
        lemma_parse_field_sound(s.skip(1), delim);
        match parse_field(s.skip(1), delim) {
            None => {}
            Some(q) => {
                let b = s[0];
                assert(escape_byte(b) =~= seq![b]);
                let p0 = seq![b] + q.0;
                assert(p0[0] == b && p0.skip(1) =~= q.0);
                assert(escape(p0) == escape_byte(b) + escape(q.0));
                assert(escape(p0) + seq![delim] + q.1 =~= seq![b] + (escape(q.0) + seq![delim]
                    + q.1));
                assert(seq![b] + s.skip(1) =~= s);
            }
        }
    }
}

/// The converse round trip: whatever parses as a record re-encodes to
/// exactly the bytes that were read — the codec accepts nothing but its own
/// encodings, and each record has one encoding.
pub proof fn lemma_parse_sound(s: Seq<u8>)
    ensures
        parse_entries(s) matches Some(kv) ==> encode_entries(kv) == s,
    decreases s.len(),
{
    if s.len() == 0 {
        match parse_entries(s) {
            None => {}
            Some(kv) => {
                assert(encode_entries(kv) =~= s);
            }
        }
    } else {
        lemma_parse_field_sound(s, FIELD_SEP);
        lemma_parse_field_len(s, FIELD_SEP);
        match parse_field(s, FIELD_SEP) {
            None => {}
            Some(kp) => {
                lemma_parse_field_sound(kp.1, LINE_SEP);
                lemma_parse_field_len(kp.1, LINE_SEP);
                match parse_field(kp.1, LINE_SEP) {
                    None => {}
                    Some(vp) => {
                        lemma_parse_sound(vp.1);
                        match parse_entries(vp.1) {
                            None => {}
                            Some(rest) => {
                                let kv = seq![(kp.0, vp.0)] + rest;
                                assert(kv.len() > 0);
                                assert(kv[0] == (kp.0, vp.0));
                                assert(kv.skip(1) =~= rest);
                                assert(encode_entries(kv) == encode_entry(kv[0])
                                    + encode_entries(rest));
                                assert(encode_entries(rest) == vp.1);
                                assert(escape(vp.0) + seq![LINE_SEP] + vp.1 == kp.1);
                                assert(escape(kp.0) + seq![FIELD_SEP] + kp.1 == s);
                                assert(encode_entry(kv[0]) + vp.1 =~= escape(kp.0)
                                    + seq![FIELD_SEP] + (escape(vp.0) + seq![LINE_SEP] + vp.1));
                                assert(encode_entry(kv[0]) + encode_entries(rest) =~= s);
                            }
                        }
                    }
                }
            }
        }
    }
}

/// One byte of a field, escaped.
fn escape_byte_out(b: u8) -> (r: Vec<u8>)
    ensures
        r@ == escape_byte(b),
{
    let mut r: Vec<u8> = Vec::new();
    if b == ESCAPE {
        r.push(ESCAPE);
        r.push(ESCAPE);
        assert(r@ =~= seq![ESCAPE, ESCAPE]);
    } else if b == FIELD_SEP {
        r.push(ESCAPE);
        r.push(CODE_TAB);
        assert(r@ =~= seq![ESCAPE, CODE_TAB]);
    } else if b == LINE_SEP {
        r.push(ESCAPE);
        r.push(CODE_NL);
        assert(r@ =~= seq![ESCAPE, CODE_NL]);
    } else {
        r.push(b);
        assert(r@ =~= seq![b]);
    }
    r
}

/// A whole field, escaped, from position `i` on.
fn escape_from(field: &Vec<u8>, i: usize) -> (r: Vec<u8>)
    requires
        i <= field.len(),
    ensures
        r@ == escape(field@.skip(i as int)),
    decreases field.len() - i,
{
    if i == field.len() {
        let r: Vec<u8> = Vec::new();
        assert(field@.skip(i as int) =~= Seq::<u8>::empty());
        assert(r@ =~= escape(field@.skip(i as int)));
        r
    } else {
        let mut head = escape_byte_out(field[i]);
        let mut tail = escape_from(field, i + 1);
        head.append(&mut tail);
        proof {
            let s = field@.skip(i as int);
            assert(s[0] == field@[i as int]);
            assert(s.skip(1) =~= field@.skip(i as int + 1));
            assert(head@ =~= escape_byte(s[0]) + escape(s.skip(1)));
        }
        head
    }
}

/// The record from entry `i` on, encoded.
fn encode_from(entries: &Vec<StateEntry>, i: usize) -> (r: Vec<u8>)
    requires
        i <= entries.len(),
    ensures
        r@ == encode_entries(entries.deep_view_entries().skip(i as int)),
    decreases entries.len() - i,
{
    if i == entries.len() {
        let r: Vec<u8> = Vec::new();
        assert(entries.deep_view_entries().skip(i as int) =~= Seq::<(Seq<u8>, Seq<u8>)>::empty());
        assert(r@ =~= encode_entries(entries.deep_view_entries().skip(i as int)));
        r
    } else {
        let mut line = escape_from(&entries[i].repo, 0);
        assert(entries[i as int].repo@.skip(0) =~= entries[i as int].repo@);
        line.push(FIELD_SEP);
        let mut marker_part = escape_from(&entries[i].marker, 0);
        assert(entries[i as int].marker@.skip(0) =~= entries[i as int].marker@);
        line.append(&mut marker_part);
        line.push(LINE_SEP);
        let mut tail = encode_from(entries, i + 1);
        line.append(&mut tail);
        proof {
            let kv = entries.deep_view_entries();
            let s = kv.skip(i as int);
            assert(s[0] == kv[i as int]);
            assert(kv[i as int] == (entries[i as int].repo@, entries[i as int].marker@));
            assert(s.skip(1) =~= kv.skip(i as int + 1));
            assert(line@ =~= encode_entry(s[0]) + encode_entries(s.skip(1)));
        }
        line
    }
}

/// Serializes a record. The result is exactly `encode_entries` of the
/// record's entries, and decoding it yields those entries back.
pub fn encode_state(st: &StateRecord) -> (r: Vec<u8>)
    requires
        st.wf(),
    ensures
        r@ == encode_entries(st.kv()),
        decode_spec(r@) == Some(st.kv()),
{
    let entries = st.entries_out();
    let r = encode_from(&entries, 0);
    proof {
        assert(entries.deep_view_entries().skip(0) =~= st.kv());
        lemma_decode_encode(st.kv());
    }
    r
}

/// Reads one escaped field starting at `i`; yields the field and the
/// position just after its delimiter.
fn take_field(s: &Vec<u8>, i: usize, delim: u8) -> (r: Option<(Vec<u8>, usize)>)
    requires
        i <= s.len(),
    ensures
        match r {
            Some(p) => i < p.1 <= s.len()
                && parse_field(s@.skip(i as int), delim) == Some((p.0@, s@.skip(p.1 as int))),
            None => parse_field(s@.skip(i as int), delim) is None,
        },
    decreases s.len() - i,
{
    let ghost tail = s@.skip(i as int);
    if i == s.len() {
        assert(tail =~= Seq::<u8>::empty());
        return None;
    }
    let b = s[i];
    assert(tail[0] == b);
    assert(tail.skip(1) =~= s@.skip(i as int + 1));
    if b == delim {
        let f: Vec<u8> = Vec::new();
        assert(f@ =~= Seq::<u8>::empty());
        return Some((f, i + 1));
    }
    if b == ESCAPE {
        if i + 1 == s.len() {
            assert(tail.len() < 2);
            return None;
        }
        let code = s[i + 1];
        assert(tail[1] == code);
        if !(code == ESCAPE || code == CODE_TAB || code == CODE_NL) {
            return None;
        }
        assert(tail.skip(2) =~= s@.skip(i as int + 2));
        match take_field(s, i + 2, delim) {
            None => None,
            Some(p) => {
                let (mut f, j) = p;
                let c = if code == CODE_TAB {
                    FIELD_SEP
                } else if code == CODE_NL {
                    LINE_SEP
                } else {
                    ESCAPE
                };
                assert(c == unescape_pair(code));
                let ghost f0 = f@;
                f.insert(0, c);
                assert(f@ =~= seq![c] + f0);
                Some((f, j))
            }
        }
    } else if b == FIELD_SEP || b == LINE_SEP {
        None
    } else {
        match take_field(s, i + 1, delim) {
            None => None,
            Some(p) => {
                let (mut f, j) = p;
                let ghost f0 = f@;
                f.insert(0, b);
                assert(f@ =~= seq![b] + f0);
                Some((f, j))
            }
        }
    }
}

/// Reads the whole record from position `i` on.
fn take_entries(s: &Vec<u8>, i: usize) -> (r: Option<Vec<StateEntry>>)
    requires
        i <= s.len(),
    ensures
        match r {
            Some(v) => parse_entries(s@.skip(i as int)) == Some(v.deep_view_entries()),
            None => parse_entries(s@.skip(i as int)) is None,
        },
    decreases s.len() - i,
{
    let ghost tail = s@.skip(i as int);
    if i == s.len() {
        assert(tail =~= Seq::<u8>::empty());
        let v: Vec<StateEntry> = Vec::new();
        assert(v.deep_view_entries() =~= Seq::<(Seq<u8>, Seq<u8>)>::empty());
        return Some(v);
    }
    assert(tail.len() > 0);
    match take_field(s, i, FIELD_SEP) {
        None => None,
        Some(kp) => {
            let (k, j) = kp;
            match take_field(s, j, LINE_SEP) {
                None => None,
                Some(vp) => {
                    let (m, j2) = vp;
                    match take_entries(s, j2) {
                        None => None,
                        Some(mut rest) => {
                            let ghost rest0 = rest.deep_view_entries();
                            let ghost kk = k@;
                            let ghost mm = m@;
                            rest.insert(0, StateEntry { repo: k, marker: m });
                            proof {
                                assert(rest.deep_view_entries() =~= seq![(kk, mm)] + rest0);
                            }
                            Some(rest)
                        }
                    }
                }
            }
        }
    }
}

/// Parses a serialized record. Succeeds exactly on the byte strings that
/// `decode_spec` accepts — the encodings of well-formed records — and then
/// returns the record whose encoding the input is.
pub fn decode_state(bytes: &Vec<u8>) -> (r: Result<StateRecord, LoadError>)
    ensures
        match r {
            Ok(st) => st.wf() && decode_spec(bytes@) == Some(st.kv()) && st@ == map_of(st.kv())
                && encode_entries(st.kv()) == bytes@,
            Err(e) => decode_spec(bytes@) is None && e == LoadError::CorruptState,
        },
{
    assert(bytes@.skip(0) =~= bytes@);
    proof {
        lemma_parse_sound(bytes@);
    }
    match take_entries(bytes, 0) {
        None => Err(LoadError::CorruptState),
        Some(entries) => {
            match StateRecord::from_entries(entries) {
                Some(st) => Ok(st),
                None => Err(LoadError::CorruptState),
            }
        }
    }
}

} // verus!
