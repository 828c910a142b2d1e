use vstd::prelude::*;

use crate::bytes::{spec_find, lemma_spec_find, find_byte, spec_find_sub, lemma_spec_find_sub,
    find_sub, bytes_eq};

verus! {

// ----------------------------------------------------------------------------
// Byte-level markup scanning shared by the two XML-shaped tokenizers: one
// event at a time over a byte slice, plus character-entity unescaping.
// ----------------------------------------------------------------------------

pub const LT: u8 = 60;
pub const GT: u8 = 62;
pub const SLASH: u8 = 47;
pub const BANG: u8 = 33;
pub const QMARK: u8 = 63;
pub const AMP: u8 = 38;
pub const SEMI: u8 = 59;
pub const QUOT: u8 = 34;
pub const APOS: u8 = 39;
pub const EQ: u8 = 61;

pub open spec fn is_ws(b: u8) -> bool {
    b == 32 || b == 9 || b == 13 || b == 10
}

/// `<!--`'s tail, `-->`, and the CDATA brackets, as byte strings.
pub open spec fn comment_open() -> Seq<u8> {
    seq![45u8, 45u8]
}

pub open spec fn comment_close() -> Seq<u8> {
    seq![45u8, 45u8, 62u8]
}

pub open spec fn cdata_open() -> Seq<u8> {
    seq![91u8, 67u8, 68u8, 65u8, 84u8, 65u8, 91u8]
}

pub open spec fn cdata_close() -> Seq<u8> {
    seq![93u8, 93u8, 62u8]
}

/// One markup event at `pos`: a text run up to the next tag, a start tag
/// (with the extent of its name-and-attributes content and whether it closes
/// itself), an end tag (with its name's extent), skipped markup (comments,
/// CDATA, declarations, processing instructions), the end of the input, or a
/// malformed construct with its offset.
pub enum XmlEvent {
    Text { start: int, end: int },
    Start { inner_start: int, inner_end: int, next: int, empty: bool },
    End { name_start: int, name_end: int, next: int },
    Skip { next: int },
    Eof,
    Fail { at: int },
}

pub open spec fn next_event(data: Seq<u8>, pos: int) -> XmlEvent {
    let len = data.len() as int;
    if pos >= len {
        XmlEvent::Eof
    } else if data[pos] != LT {
        XmlEvent::Text {
            start: pos,
            end: match spec_find(data, pos, LT) {
                Some(i) => i,
                None => len,
            },
        }
    } else if pos + 1 >= len {
        XmlEvent::Fail { at: pos }
    } else if data[pos + 1] == SLASH {
        match spec_find(data, pos + 2, GT) {
            Some(gt) => XmlEvent::End { name_start: pos + 2, name_end: gt, next: gt + 1 },
            None => XmlEvent::Fail { at: pos },
        }
    } else if data[pos + 1] == BANG {
        if pos + 4 <= len && data.subrange(pos + 2, pos + 4) == comment_open() {
            match spec_find_sub(data, pos + 4, comment_close()) {
                Some(i) => XmlEvent::Skip { next: i + 3 },
                None => XmlEvent::Fail { at: pos },
            }
        } else if pos + 9 <= len && data.subrange(pos + 2, pos + 9) == cdata_open() {
            match spec_find_sub(data, pos + 9, cdata_close()) {
                Some(i) => XmlEvent::Skip { next: i + 3 },
                None => XmlEvent::Fail { at: pos },
            }
        } else {
            match spec_find(data, pos + 2, GT) {
                Some(gt) => XmlEvent::Skip { next: gt + 1 },
                None => XmlEvent::Fail { at: pos },
            }
        }
    } else if data[pos + 1] == QMARK {
        match spec_find(data, pos + 2, GT) {
            Some(gt) => XmlEvent::Skip { next: gt + 1 },
            None => XmlEvent::Fail { at: pos },
        }
    } else {
        match spec_find(data, pos + 1, GT) {
            Some(gt) => {
                if gt > pos + 1 && data[gt - 1] == SLASH {
                    XmlEvent::Start {
                        inner_start: pos + 1,
                        inner_end: gt - 1,
                        next: gt + 1,
                        empty: true,
                    }
                } else {
                    XmlEvent::Start {
                        inner_start: pos + 1,
                        inner_end: gt,
                        next: gt + 1,
                        empty: false,
                    }
                }
            },
            None => XmlEvent::Fail { at: pos },
        }
    }
}

/// Every event moves the cursor forward and stays within the input.
pub proof fn lemma_next_event_advances(data: Seq<u8>, pos: int)
    requires
        0 <= pos <= data.len(),
    ensures
        match next_event(data, pos) {
            XmlEvent::Text { start, end } => start == pos && pos < end <= data.len(),
            XmlEvent::Start { inner_start, inner_end, next, .. } => pos < inner_start
                <= inner_end < next <= data.len(),
            XmlEvent::End { name_start, name_end, next } => pos < name_start <= name_end
                < next <= data.len(),
            XmlEvent::Skip { next } => pos < next <= data.len(),
            XmlEvent::Eof => pos == data.len(),
            XmlEvent::Fail { .. } => true,
        },
{
    let len = data.len() as int;
    if pos < len {
        if data[pos] != LT {
            lemma_spec_find(data, pos, LT);
        } else if pos + 1 < len {
            if data[pos + 1] == SLASH {
                lemma_spec_find(data, pos + 2, GT);
            } else if data[pos + 1] == BANG {
                if pos + 4 <= len && data.subrange(pos + 2, pos + 4) == comment_open() {
                    lemma_spec_find_sub(data, pos + 4, comment_close());
                } else if pos + 9 <= len && data.subrange(pos + 2, pos + 9) == cdata_open() {
                    lemma_spec_find_sub(data, pos + 9, cdata_close());
                } else {
                    lemma_spec_find(data, pos + 2, GT);
                }
            } else if data[pos + 1] == QMARK {
                lemma_spec_find(data, pos + 2, GT);
            } else {
                lemma_spec_find(data, pos + 1, GT);
            }
        }
    }
}

/// The exec twin of `next_event`, ranges as machine integers.
pub enum XmlEventE {
    Text { start: usize, end: usize },
    Start { inner_start: usize, inner_end: usize, next: usize, empty: bool },
    End { name_start: usize, name_end: usize, next: usize },
    Skip { next: usize },
    Eof,
    Fail { at: usize },
}

pub open spec fn event_corresponds(r: XmlEventE, s: XmlEvent) -> bool {
    match (r, s) {
        (XmlEventE::Text { start, end }, XmlEvent::Text { start: s1, end: e1 }) => start
            == s1 && end == e1,
        (
            XmlEventE::Start { inner_start, inner_end, next, empty },
            XmlEvent::Start { inner_start: s1, inner_end: e1, next: n1, empty: m1 },
        ) => inner_start == s1 && inner_end == e1 && next == n1 && empty == m1,
        (
            XmlEventE::End { name_start, name_end, next },
            XmlEvent::End { name_start: s1, name_end: e1, next: n1 },
        ) => name_start == s1 && name_end == e1 && next == n1,
        (XmlEventE::Skip { next }, XmlEvent::Skip { next: n1 }) => next == n1,
        (XmlEventE::Eof, XmlEvent::Eof) => true,
        (XmlEventE::Fail { at }, XmlEvent::Fail { at: a1 }) => at == a1,
        _ => false,
    }
}

pub fn scan_event(data: &[u8], pos: usize) -> (r: XmlEventE)
    requires
        pos <= data@.len(),
    ensures
        event_corresponds(r, next_event(data@, pos as int)),
{
    let len = data.len();
    if pos >= len {
        return XmlEventE::Eof;
    }
    proof {
        lemma_next_event_advances(data@, pos as int);
    }
    if data[pos] != LT {
        let end = match find_byte(data, pos, LT) {
            Some(i) => i,
            None => len,
        };
        return XmlEventE::Text { start: pos, end };
    }
    if pos + 1 >= len {
        return XmlEventE::Fail { at: pos };
    }
    let b = data[pos + 1];
    if b == SLASH {
        match find_byte(data, pos + 2, GT) {
            Some(gt) => XmlEventE::End { name_start: pos + 2, name_end: gt, next: gt + 1 },
            None => XmlEventE::Fail { at: pos },
        }
    } else if b == BANG {
        let mut comment = false;
        let mut cdata = false;
        if len - pos >= 4 {
            let w = vstd::slice::slice_subrange(data, pos + 2, pos + 4);
            let mut pat: Vec<u8> = Vec::new();
            pat.push(45);
            pat.push(45);
            comment = bytes_eq(w, pat.as_slice());
            proof {
                assert(pat@ =~= comment_open());
            }
        }
        if !comment && len - pos >= 9 {
            let w = vstd::slice::slice_subrange(data, pos + 2, pos + 9);
            let mut pat: Vec<u8> = Vec::new();
            pat.push(91);
            pat.push(67);
            pat.push(68);
            pat.push(65);
            pat.push(84);
            pat.push(65);
            pat.push(91);
            cdata = bytes_eq(w, pat.as_slice());
            proof {
                assert(pat@ =~= cdata_open());
            }
        }
        if comment {
            let mut close: Vec<u8> = Vec::new();
            close.push(45);
            close.push(45);
            close.push(62);
            proof {
                assert(close@ =~= comment_close());
            }
            match find_sub(data, pos + 4, close.as_slice()) {
                Some(i) => {
                    proof {
                        lemma_spec_find_sub(data@, pos + 4, comment_close());
                    }
                    XmlEventE::Skip { next: i + 3 }
                },
                None => XmlEventE::Fail { at: pos },
            }
        } else if cdata {
            let mut close: Vec<u8> = Vec::new();
            close.push(93);
            close.push(93);
            close.push(62);
            proof {
                assert(close@ =~= cdata_close());
            }
            match find_sub(data, pos + 9, close.as_slice()) {
                Some(i) => {
                    proof {
                        lemma_spec_find_sub(data@, pos + 9, cdata_close());
                    }
                    XmlEventE::Skip { next: i + 3 }
                },
                None => XmlEventE::Fail { at: pos },
            }
        } else {
            match find_byte(data, pos + 2, GT) {
                Some(gt) => XmlEventE::Skip { next: gt + 1 },
                None => XmlEventE::Fail { at: pos },
            }
        }
    } else if b == QMARK {
        match find_byte(data, pos + 2, GT) {
            Some(gt) => XmlEventE::Skip { next: gt + 1 },
            None => XmlEventE::Fail { at: pos },
        }
    } else {
        match find_byte(data, pos + 1, GT) {
            Some(gt) => {
                if gt > pos + 1 && data[gt - 1] == SLASH {
                    XmlEventE::Start {
                        inner_start: pos + 1,
                        inner_end: gt - 1,
                        next: gt + 1,
                        empty: true,
                    }
                } else {
                    XmlEventE::Start {
                        inner_start: pos + 1,
                        inner_end: gt,
                        next: gt + 1,
                        empty: false,
                    }
                }
            },
            None => XmlEventE::Fail { at: pos },
        }
    }
}

/// The end of a tag name within the tag content `[s, e)`: the first
/// whitespace, or `e`.
pub open spec fn spec_name_end(data: Seq<u8>, s: int, e: int) -> int
    decreases e - s,
    when 0 <= s <= e <= data.len()
{
    if s >= e {
        e
    } else if is_ws(data[s]) {
        s
    } else {
        spec_name_end(data, s + 1, e)
    }
}

pub proof fn lemma_spec_name_end(data: Seq<u8>, s: int, e: int)
    requires
        0 <= s <= e <= data.len(),
    ensures
        s <= spec_name_end(data, s, e) <= e,
    decreases e - s,
{
    if s < e && !is_ws(data[s]) {
        lemma_spec_name_end(data, s + 1, e);
    }
}

pub fn name_end(data: &[u8], s: usize, e: usize) -> (r: usize)
    requires
        s <= e <= data@.len(),
    ensures
        r == spec_name_end(data@, s as int, e as int),
        s <= r <= e,
{
    proof {
        lemma_spec_name_end(data@, s as int, e as int);
    }
    let mut i: usize = s;
    while i < e
        invariant
            s <= i <= e <= data@.len(),
            spec_name_end(data@, s as int, e as int) == spec_name_end(
                data@,
                i as int,
                e as int,
            ),
        decreases e - i,
    {
        let bb = data[i];
        if bb == 32 || bb == 9 || bb == 13 || bb == 10 {
            return i;
        }
        i = i + 1;
    }
    e
}

/// The first non-whitespace position in `[p, e)`, or `e`.
pub open spec fn spec_skip_ws(data: Seq<u8>, p: int, e: int) -> int
    decreases e - p,
    when 0 <= p <= e <= data.len()
{
    if p >= e {
        e
    } else if is_ws(data[p]) {
        spec_skip_ws(data, p + 1, e)
    } else {
        p
    }
}

pub proof fn lemma_spec_skip_ws(data: Seq<u8>, p: int, e: int)
    requires
        0 <= p <= e <= data.len(),
    ensures
        p <= spec_skip_ws(data, p, e) <= e,
    decreases e - p,
{
    if p < e && is_ws(data[p]) {
        lemma_spec_skip_ws(data, p + 1, e);
    }
}

pub fn skip_ws(data: &[u8], p: usize, e: usize) -> (r: usize)
    requires
        p <= e <= data@.len(),
    ensures
        r == spec_skip_ws(data@, p as int, e as int),
        p <= r <= e,
{
    proof {
        lemma_spec_skip_ws(data@, p as int, e as int);
    }
    let mut i: usize = p;
    while i < e
        invariant
            p <= i <= e <= data@.len(),
            spec_skip_ws(data@, p as int, e as int) == spec_skip_ws(data@, i as int, e as int),
        decreases e - i,
    {
        let bb = data[i];
        if !(bb == 32 || bb == 9 || bb == 13 || bb == 10) {
            return i;
        }
        i = i + 1;
    }
    e
}

/// The end of an attribute key starting at `q`: the first whitespace or `=`
/// in `[q, e)`, or `e`.
pub open spec fn spec_key_end(data: Seq<u8>, q: int, e: int) -> int
    decreases e - q,
    when 0 <= q <= e <= data.len()
{
    if q >= e {
        e
    } else if is_ws(data[q]) || data[q] == EQ {
        q
    } else {
        spec_key_end(data, q + 1, e)
    }
}

pub proof fn lemma_spec_key_end(data: Seq<u8>, q: int, e: int)
    requires
        0 <= q <= e <= data.len(),
    ensures
        q <= spec_key_end(data, q, e) <= e,
    decreases e - q,
{
    if q < e && !(is_ws(data[q]) || data[q] == EQ) {
        lemma_spec_key_end(data, q + 1, e);
    }
}

pub fn key_end(data: &[u8], q: usize, e: usize) -> (r: usize)
    requires
        q <= e <= data@.len(),
    ensures
        r == spec_key_end(data@, q as int, e as int),
        q <= r <= e,
{
    proof {
        lemma_spec_key_end(data@, q as int, e as int);
    }
    let mut i: usize = q;
    while i < e
        invariant
            q <= i <= e <= data@.len(),
            spec_key_end(data@, q as int, e as int) == spec_key_end(data@, i as int, e as int),
        decreases e - i,
    {
        let bb = data[i];
        if bb == 32 || bb == 9 || bb == 13 || bb == 10 || bb == EQ {
            return i;
        }
        i = i + 1;
    }
    e
}

/// What looking for the attribute `key` in the tag content `[p, aend)`
/// yields: its quoted value's extent, no such attribute, or a malformed
/// attribute met before it.
pub enum AttrScan {
    Found { vstart: int, vend: int },
    Absent,
    Malformed,
}

pub open spec fn attr_lookup(data: Seq<u8>, p: int, aend: int, key: Seq<u8>) -> AttrScan
    decreases aend - p,
    when 0 <= p <= aend <= data.len()
    via attr_lookup_decreases
{
    let q = spec_skip_ws(data, p, aend);
    if q >= aend {
        AttrScan::Absent
    } else {
        let ke = spec_key_end(data, q, aend);
        let q2 = spec_skip_ws(data, ke, aend);
        if q2 >= aend || data[q2] != EQ {
            AttrScan::Malformed
        } else {
            let q3 = spec_skip_ws(data, q2 + 1, aend);
            if q3 >= aend || (data[q3] != QUOT && data[q3] != APOS) {
                AttrScan::Malformed
            } else {
                match spec_find(data, q3 + 1, data[q3]) {
                    Some(cq) => if cq < aend {
                        if data.subrange(q, ke) == key {
                            AttrScan::Found { vstart: q3 + 1, vend: cq }
                        } else {
                            attr_lookup(data, cq + 1, aend, key)
                        }
                    } else {
                        AttrScan::Malformed
                    },
                    None => AttrScan::Malformed,
                }
            }
        }
    }
}

#[via_fn]
proof fn attr_lookup_decreases(data: Seq<u8>, p: int, aend: int, key: Seq<u8>) {
    lemma_spec_skip_ws(data, p, aend);
    let q = spec_skip_ws(data, p, aend);
    if q < aend {
        lemma_spec_key_end(data, q, aend);
        let ke = spec_key_end(data, q, aend);
        lemma_spec_skip_ws(data, ke, aend);
        let q2 = spec_skip_ws(data, ke, aend);
        if !(q2 >= aend || data[q2] != EQ) {
            lemma_spec_skip_ws(data, q2 + 1, aend);
            let q3 = spec_skip_ws(data, q2 + 1, aend);
            if !(q3 >= aend || (data[q3] != QUOT && data[q3] != APOS)) {
                lemma_spec_find(data, q3 + 1, data[q3]);
            }
        }
    }
}

/// The exec twin of `attr_lookup`.
pub enum AttrScanE {
    Found { vstart: usize, vend: usize },
    Absent,
    Malformed,
}

pub fn attr_scan(data: &[u8], p: usize, aend: usize, key: &[u8]) -> (r: AttrScanE)
    requires
        p <= aend <= data@.len(),
    ensures
        match (r, attr_lookup(data@, p as int, aend as int, key@)) {
            (AttrScanE::Found { vstart, vend }, AttrScan::Found { vstart: s1, vend: e1 }) =>
                vstart == s1 && vend == e1 && p < vstart <= vend < aend,
            (AttrScanE::Absent, AttrScan::Absent) => true,
            (AttrScanE::Malformed, AttrScan::Malformed) => true,
            _ => false,
        },
{
    let mut cur: usize = p;
    while cur < aend
        invariant
            p <= cur <= aend <= data@.len(),
            attr_lookup(data@, p as int, aend as int, key@) == attr_lookup(
                data@,
                cur as int,
                aend as int,
                key@,
            ),
        decreases aend - cur,
    {
        let q = skip_ws(data, cur, aend);
        if q >= aend {
            return AttrScanE::Absent;
        }
        let ke = key_end(data, q, aend);
        let q2 = skip_ws(data, ke, aend);
        if q2 >= aend || data[q2] != EQ {
            return AttrScanE::Malformed;
        }
        let q3 = skip_ws(data, q2 + 1, aend);
        if q3 >= aend || (data[q3] != QUOT && data[q3] != APOS) {
            return AttrScanE::Malformed;
        }
        proof {
            lemma_spec_find(data@, q3 + 1, data@[q3 as int]);
        }
        let cq = match find_byte(data, q3 + 1, data[q3]) {
            Some(c) => c,
            None => {
                return AttrScanE::Malformed;
            },
        };
        if cq >= aend {
            return AttrScanE::Malformed;
        }
        let k = vstd::slice::slice_subrange(data, q, ke);
        if bytes_eq(k, key) {
            return AttrScanE::Found { vstart: q3 + 1, vend: cq };
        }
        cur = cq + 1;
    }
    proof {
        assert(spec_skip_ws(data@, cur as int, aend as int) == aend as int);
    }
    AttrScanE::Absent
}

// ----------------------------------------------------------------------------
// Character-entity unescaping: the five named entities and numeric character
// references, decoded to UTF-8.
// ----------------------------------------------------------------------------

pub open spec fn dec_digit(b: u8) -> Option<int> {
    if 48 <= b <= 57 {
        Some((b - 48) as int)
    } else {
        None
    }
}

pub open spec fn hex_digit(b: u8) -> Option<int> {
    if 48 <= b <= 57 {
        Some((b - 48) as int)
    } else if 97 <= b <= 102 {
        Some((b - 97 + 10) as int)
    } else if 65 <= b <= 70 {
        Some((b - 65 + 10) as int)
    } else {
        None
    }
}

/// Accumulation cap: anything at or above it is no valid code point, so the
/// accumulator need not grow further.
pub open spec fn num_cap() -> int {
    0x110000
}

pub open spec fn parse_dec(s: Seq<u8>, i: int, acc: int) -> Option<int>
    decreases s.len() - i,
    when 0 <= i <= s.len()
{
    if i >= s.len() {
        Some(acc)
    } else {
        match dec_digit(s[i]) {
            Some(d) => parse_dec(
                s,
                i + 1,
                if acc * 10 + d > num_cap() {
                    num_cap()
                } else {
                    acc * 10 + d
                },
            ),
            None => None,
        }
    }
}

pub open spec fn parse_hex(s: Seq<u8>, i: int, acc: int) -> Option<int>
    decreases s.len() - i,
    when 0 <= i <= s.len()
{
    if i >= s.len() {
        Some(acc)
    } else {
        match hex_digit(s[i]) {
            Some(d) => parse_hex(
                s,
                i + 1,
                if acc * 16 + d > num_cap() {
                    num_cap()
                } else {
                    acc * 16 + d
                },
            ),
            None => None,
        }
    }
}

/// A Unicode scalar value: in range and no surrogate.
pub open spec fn valid_cp(c: int) -> bool {
    0 <= c <= 0x10FFFF && !(0xD800 <= c <= 0xDFFF)
}

/// The UTF-8 encoding of a scalar value.
pub open spec fn utf8_enc(c: int) -> Seq<u8> {
    if c < 0x80 {
        seq![c as u8]
    } else if c < 0x800 {
        seq![(0xC0 + c / 64) as u8, (0x80 + c % 64) as u8]
    } else if c < 0x10000 {
        seq![(0xE0 + c / 4096) as u8, (0x80 + (c / 64) % 64) as u8, (0x80 + c % 64) as u8]
    } else {
        seq![
            (0xF0 + c / 262144) as u8,
            (0x80 + (c / 4096) % 64) as u8,
            (0x80 + (c / 64) % 64) as u8,
            (0x80 + c % 64) as u8,
        ]
    }
}

pub open spec fn amp_name() -> Seq<u8> {
    seq![97u8, 109u8, 112u8]
}

pub open spec fn lt_name() -> Seq<u8> {
    seq![108u8, 116u8]
}

pub open spec fn gt_name() -> Seq<u8> {
    seq![103u8, 116u8]
}

pub open spec fn quot_name() -> Seq<u8> {
    seq![113u8, 117u8, 111u8, 116u8]
}

pub open spec fn apos_name() -> Seq<u8> {
    seq![97u8, 112u8, 111u8, 115u8]
}

/// The replacement bytes of one entity name (what stood between `&` and `;`),
/// or `None` when the name is no entity.
pub open spec fn decode_entity(e: Seq<u8>) -> Option<Seq<u8>> {
    if e == amp_name() {
        Some(seq![38u8])
    } else if e == lt_name() {
        Some(seq![60u8])
    } else if e == gt_name() {
        Some(seq![62u8])
    } else if e == quot_name() {
        Some(seq![34u8])
    } else if e == apos_name() {
        Some(seq![39u8])
    } else if e.len() >= 2 && e[0] == 35 {
        if e[1] == 120 || e[1] == 88 {
            if e.len() >= 3 {
                match parse_hex(e, 2, 0) {
                    Some(c) => if valid_cp(c) {
                        Some(utf8_enc(c))
                    } else {
                        None
                    },
                    None => None,
                }
            } else {
                None
            }
        } else {
            match parse_dec(e, 1, 0) {
                Some(c) => if valid_cp(c) {
                    Some(utf8_enc(c))
                } else {
                    None
                },
                None => None,
            }
        }
    } else {
        None
    }
}

/// The unescaped form of `s` from `pos` on: plain bytes copied, `&name;`
/// references replaced, anything else malformed.
pub open spec fn spec_unescape(s: Seq<u8>, pos: int) -> Option<Seq<u8>>
    decreases s.len() - pos,
    when 0 <= pos <= s.len()
    via spec_unescape_decreases
{
    if pos >= s.len() {
        Some(Seq::empty())
    } else if s[pos] != AMP {
        match spec_unescape(s, pos + 1) {
            Some(r) => Some(seq![s[pos]] + r),
            None => None,
        }
    } else {
        match spec_find(s, pos + 1, SEMI) {
            None => None,
            Some(semi) => match decode_entity(s.subrange(pos + 1, semi)) {
                None => None,
                Some(d) => match spec_unescape(s, semi + 1) {
                    Some(r) => Some(d + r),
                    None => None,
                },
            },
        }
    }
}

#[via_fn]
proof fn spec_unescape_decreases(s: Seq<u8>, pos: int) {
    if pos < s.len() && s[pos] == AMP {
        lemma_spec_find(s, pos + 1, SEMI);
    }
}

/// Decodes one entity name; the exec twin of `decode_entity`.
fn decode_entity_exec(e: &[u8]) -> (r: Option<Vec<u8>>)
    ensures
        match decode_entity(e@) {
            Some(d) => match r {
                Some(v) => v@ == d,
                None => false,
            },
            None => r is None,
        },
{
    let n = e.len();
    let mut out: Vec<u8> = Vec::new();
    if n == 3 && e[0] == 97 && e[1] == 109 && e[2] == 112 {
        proof {
            assert(e@ =~= amp_name());
        }
        out.push(38);
        proof {
            assert(out@ =~= seq![38u8]);
        }
        return Some(out);
    }
    if n == 2 && e[0] == 108 && e[1] == 116 {
        proof {
            assert(e@ =~= lt_name());
        }
        out.push(60);
        proof {
            assert(out@ =~= seq![60u8]);
        }
        return Some(out);
    }
    if n == 2 && e[0] == 103 && e[1] == 116 {
        proof {
            assert(e@ =~= gt_name());
        }
        out.push(62);
        proof {
            assert(out@ =~= seq![62u8]);
        }
        return Some(out);
    }
    if n == 4 && e[0] == 113 && e[1] == 117 && e[2] == 111 && e[3] == 116 {
        proof {
            assert(e@ =~= quot_name());
        }
        out.push(34);
        proof {
            assert(out@ =~= seq![34u8]);
        }
        return Some(out);
    }
    if n == 4 && e[0] == 97 && e[1] == 112 && e[2] == 111 && e[3] == 115 {
        proof {
            assert(e@ =~= apos_name());
        }
        out.push(39);
        proof {
            assert(out@ =~= seq![39u8]);
        }
        return Some(out);
    }
    if n >= 2 && e[0] == 35 {
        let c: u32;
        if e[1] == 120 || e[1] == 88 {
            if n < 3 {
                return None;
            }
            let mut acc: u32 = 0;
            let mut i: usize = 2;
            while i < n
                invariant
                    2 <= i <= n == e@.len(),
                    3 <= n,
                    e@[0] == 35,
                    e@[1] == 120 || e@[1] == 88,
                    0 <= acc <= 0x110000,
                    parse_hex(e@, 2, 0) == parse_hex(e@, i as int, acc as int),
                decreases n - i,
            {
                let b = e[i];
                let d: u32 = if 48 <= b && b <= 57 {
                    (b - 48) as u32
                } else if 97 <= b && b <= 102 {
                    (b - 97 + 10) as u32
                } else if 65 <= b && b <= 70 {
                    (b - 65 + 10) as u32
                } else {
                    return None;
                };
                acc = if acc * 16 + d > 0x110000 {
                    0x110000
                } else {
                    acc * 16 + d
                };
                i = i + 1;
            }
            c = acc;
        } else {
            let mut acc: u32 = 0;
            let mut i: usize = 1;
            while i < n
                invariant
                    1 <= i <= n == e@.len(),
                    2 <= n,
                    e@[0] == 35,
                    e@[1] != 120 && e@[1] != 88,
                    0 <= acc <= 0x110000,
                    parse_dec(e@, 1, 0) == parse_dec(e@, i as int, acc as int),
                decreases n - i,
            {
                let b = e[i];
                let d: u32 = if 48 <= b && b <= 57 {
                    (b - 48) as u32
                } else {
                    return None;
                };
                acc = if acc * 10 + d > 0x110000 {
                    0x110000
                } else {
                    acc * 10 + d
                };
                i = i + 1;
            }
            c = acc;
        }
        if c > 0x10FFFF || (0xD800 <= c && c <= 0xDFFF) {
            return None;
        }
        // UTF-8 encode
        if c < 0x80 {
            out.push(c as u8);
            proof {
                assert(out@ =~= utf8_enc(c as int));
            }
        } else if c < 0x800 {
            out.push((0xC0 + c / 64) as u8);
            out.push((0x80 + c % 64) as u8);
            proof {
                assert(out@ =~= utf8_enc(c as int));
            }
        } else if c < 0x10000 {
            out.push((0xE0 + c / 4096) as u8);
            out.push((0x80 + (c / 64) % 64) as u8);
            out.push((0x80 + c % 64) as u8);
            proof {
                assert(out@ =~= utf8_enc(c as int));
            }
        } else {
            out.push((0xF0 + c / 262144) as u8);
            out.push((0x80 + (c / 4096) % 64) as u8);
            out.push((0x80 + (c / 64) % 64) as u8);
            out.push((0x80 + c % 64) as u8);
            proof {
                assert(out@ =~= utf8_enc(c as int));
            }
        }
        Some(out)
    } else {
        None
    }
}

/// Unescapes a byte run; the exec twin of `spec_unescape`.
pub fn unescape_bytes(data: &[u8]) -> (r: Option<Vec<u8>>)
    ensures
        match spec_unescape(data@, 0) {
            Some(u) => match r {
                Some(v) => v@ == u,
                None => false,
            },
            None => r is None,
        },
{
    let mut out: Vec<u8> = Vec::new();
    let mut i: usize = 0;
    proof {
        assert(Seq::<u8>::empty() + Seq::<u8>::empty() =~= Seq::<u8>::empty());
    }
    while i < data.len()
        invariant
            i <= data@.len(),
            match spec_unescape(data@, i as int) {
                Some(r2) => spec_unescape(data@, 0) == Some(out@ + r2),
                None => spec_unescape(data@, 0) is None,
            },
        decreases data@.len() - i,
    {
        let b = data[i];
        if b != AMP {
            let ghost out_old = out@;
            out.push(b);
            proof {
                if spec_unescape(data@, i + 1) is Some {
                    let r2 = spec_unescape(data@, i + 1).unwrap();
                    assert(out_old + (seq![b] + r2) =~= out@ + r2);
                }
            }
            i = i + 1;
        } else {
            proof {
                lemma_spec_find(data@, i + 1, SEMI);
            }
            let semi = match find_byte(data, i + 1, SEMI) {
                Some(s) => s,
                None => {
                    return None;
                },
            };
            let ent = vstd::slice::slice_subrange(data, i + 1, semi);
            match decode_entity_exec(ent) {
                Some(mut d) => {
                    let ghost out_old = out@;
                    let ghost dd = d@;
                    out.append(&mut d);
                    proof {
                        if spec_unescape(data@, semi + 1) is Some {
                            let r2 = spec_unescape(data@, semi + 1).unwrap();
                            assert(out_old + (dd + r2) =~= out@ + r2);
                        }
                    }
                    i = semi + 1;
                },
                None => {
                    return None;
                },
            }
        }
    }
    proof {
        assert(out@ + Seq::<u8>::empty() =~= out@);
    }
    Some(out)
}

} // verus!
