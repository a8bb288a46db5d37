//! The packed parameter store: `key=value` entries joined by line feeds in a
//! single byte buffer, searched and rewritten without decoding.

use vstd::prelude::*;
use crate::number::{decimal, format_decimal, parse_int, parse_decimal};

verus! {

/// A list of `key=value` parameters packed into one buffer. A key is a single
/// byte; entries are separated by a line feed.
#[allow(non_camel_case_types)]
#[derive(Debug, Clone)]
pub struct dc_param_t {
    pub packed: Vec<u8>,
}

impl View for dc_param_t {
    type V = Seq<u8>;

    open spec fn view(&self) -> Seq<u8> {
        self.packed@
    }
}

/// The bytes that trimming removes: space, tab, line feed, vertical tab,
/// form feed and carriage return.
pub open spec fn is_space(b: u8) -> bool {
    b == 32 || (9 <= b && b <= 13)
}

/// `s` without its trailing whitespace.
pub open spec fn rtrim(s: Seq<u8>) -> Seq<u8>
    decreases s.len(),
{
    if s.len() > 0 && is_space(s.last()) {
        rtrim(s.drop_last())
    } else {
        s
    }
}

/// `s` without its leading whitespace.
pub open spec fn ltrim(s: Seq<u8>) -> Seq<u8>
    decreases s.len(),
{
    if s.len() > 0 && is_space(s.first()) {
        ltrim(s.drop_first())
    } else {
        s
    }
}

/// Position `p` begins a line of `buf`.
pub open spec fn line_start(buf: Seq<u8>, p: int) -> bool {
    0 <= p < buf.len() && (p == 0 || buf[p - 1] == 10)
}

/// The two bytes at `p` are the key followed by `=`.
pub open spec fn marker_at(buf: Seq<u8>, key: i32, p: int) -> bool {
    0 <= p && p + 1 < buf.len() && buf[p] as int == key as int && buf[p + 1] == 61
}

/// Some line of `buf` begins with the marker of `key`.
pub open spec fn has_entry(buf: Seq<u8>, key: i32) -> bool {
    exists|p: int| line_start(buf, p) && marker_at(buf, key, p)
}

/// `start..end` is the first entry of `key`: the first line that begins with
/// its marker, up to the next line feed behind the marker or the buffer's end.
pub open spec fn entry_at(buf: Seq<u8>, key: i32, start: int, end: int) -> bool {
    &&& line_start(buf, start)
    &&& marker_at(buf, key, start)
    &&& forall|p: int| 0 <= p < start && line_start(buf, p) ==> !marker_at(buf, key, p)
    &&& start + 2 <= end <= buf.len()
    &&& (end < buf.len() ==> buf[end] == 10)
    &&& forall|i: int| start + 2 <= i < end ==> buf[i] != 10
}

/// Where the first entry of `key` starts and ends, if there is one.
pub open spec fn find(buf: Seq<u8>, key: i32) -> Option<(int, int)> {
    if exists|s: int, e: int| entry_at(buf, key, s, e) {
        Some(choose|s: int, e: int| entry_at(buf, key, s, e))
    } else {
        None
    }
}

/// An entry's bounds are unique, so `find` names them.
pub proof fn lemma_find_some(buf: Seq<u8>, key: i32, start: int, end: int)
    requires
        entry_at(buf, key, start, end),
    ensures
        find(buf, key) == Some((start, end)),
{
    let (s, e) = choose|s: int, e: int| entry_at(buf, key, s, e);
    assert(entry_at(buf, key, s, e));
    assert(s == start);
    if e < end {
        assert(buf[e] == 10);
    }
    if end < e {
        assert(buf[end] == 10);
    }
}

/// Without a line that begins with the marker there is nothing to find.
pub proof fn lemma_find_none(buf: Seq<u8>, key: i32)
    requires
        !has_entry(buf, key),
    ensures
        find(buf, key) is None,
{
    if exists|s: int, e: int| entry_at(buf, key, s, e) {
        let (s, e) = choose|s: int, e: int| entry_at(buf, key, s, e);
        assert(line_start(buf, s) && marker_at(buf, key, s));
    }
}

/// The first line feed at or behind `from`, or the length of `buf`.
pub(crate) fn next_line_feed(buf: &[u8], from: usize) -> (end: usize)
    requires
        from <= buf@.len(),
    ensures
        from <= end <= buf@.len(),
        end < buf@.len() ==> buf@[end as int] == 10,
        forall|i: int| from <= i < end ==> buf@[i] != 10,
{
    let n: usize = buf.len();
    let mut end: usize = from;
    while end < n && buf[end] != 10
        invariant
            n == buf@.len(),
            from <= end <= n,
            forall|i: int| from <= i < end ==> buf@[i] != 10,
        decreases n - end,
    {
        end += 1;
    }
    end
}

/// Looks for the first entry of `key` in `haystack`: the first line that
/// begins with the key's byte and `=`. Returns where the entry starts (at the
/// key) and where it ends (at the line feed behind it, or at the end).
pub fn find_param(haystack: &[u8], key: i32) -> (r: Option<(usize, usize)>)
    ensures
        match r {
            Some((s, e)) => entry_at(haystack@, key, s as int, e as int),
            None => !has_entry(haystack@, key),
        },
        find(haystack@, key) == match r {
            Some((s, e)) => Some((s as int, e as int)),
            None => None,
        },
{
    let n: usize = haystack.len();
    let mut p: usize = 0;
    while p < n
        invariant
            n == haystack@.len(),
            p <= n,
            p < n ==> line_start(haystack@, p as int),
            forall|q: int| 0 <= q < p && line_start(haystack@, q) ==> !marker_at(haystack@, key, q),
        decreases n - p,
    {
        if n - p >= 2 && haystack[p] as i32 == key && haystack[p + 1] == 61 {
            let e: usize = next_line_feed(haystack, p + 2);
            proof {
                lemma_find_some(haystack@, key, p as int, e as int);
            }
            return Some((p, e));
        }
        let q: usize = next_line_feed(haystack, p);
        if q < n {
            p = q + 1;
        } else {
            p = n;
        }
    }
    proof {
        lemma_find_none(haystack@, key);
    }
    None
}

/// The byte that stands for `key` in a written entry: its low eight bits.
pub open spec fn key_byte(key: i32) -> u8 {
    (key & 0xff) as u8
}

fn key_to_byte(key: i32) -> (b: u8)
    ensures
        b == key_byte(key),
        0 <= key <= 255 ==> b as int == key as int,
{
    let low: i32 = key & 0xff;
    assert(0 <= low <= 255) by (bit_vector)
        requires
            low == key & 0xff,
    ;
    assert(0 <= key <= 255 ==> low == key) by (bit_vector)
        requires
            low == key & 0xff,
    ;
    low as u8
}

fn byte_is_space(b: u8) -> (r: bool)
    ensures
        r == is_space(b),
{
    b == 32 || (9 <= b && b <= 13)
}

/// The end of `buf[lo..hi]` once its trailing whitespace is cut off.
pub(crate) fn rtrim_end(buf: &[u8], lo: usize, hi: usize) -> (end: usize)
    requires
        lo <= hi <= buf@.len(),
    ensures
        lo <= end <= hi,
        buf@.subrange(lo as int, end as int) == rtrim(buf@.subrange(lo as int, hi as int)),
{
    let mut end: usize = hi;
    while end > lo && byte_is_space(buf[end - 1])
        invariant
            lo <= end <= hi <= buf@.len(),
            rtrim(buf@.subrange(lo as int, end as int)) == rtrim(buf@.subrange(lo as int, hi as int)),
        decreases end - lo,
    {
        assert(buf@.subrange(lo as int, end as int).drop_last() == buf@.subrange(
            lo as int,
            end - 1,
        ));
        end -= 1;
    }
    end
}

/// The start of `buf[lo..hi]` once its leading whitespace is cut off.
pub(crate) fn ltrim_start(buf: &[u8], lo: usize, hi: usize) -> (start: usize)
    requires
        lo <= hi <= buf@.len(),
    ensures
        lo <= start <= hi,
        buf@.subrange(start as int, hi as int) == ltrim(buf@.subrange(lo as int, hi as int)),
{
    let mut start: usize = lo;
    while start < hi && byte_is_space(buf[start])
        invariant
            lo <= start <= hi <= buf@.len(),
            ltrim(buf@.subrange(start as int, hi as int)) == ltrim(buf@.subrange(lo as int, hi as int)),
        decreases hi - start,
    {
        assert(buf@.subrange(start as int, hi as int).drop_first() == buf@.subrange(
            start + 1,
            hi as int,
        ));
        start += 1;
    }
    start
}

/// Appends `src[lo..hi]` to `dst`.
fn extend_range(dst: &mut Vec<u8>, src: &[u8], lo: usize, hi: usize)
    requires
        lo <= hi <= src@.len(),
    ensures
        final(dst)@ == old(dst)@ + src@.subrange(lo as int, hi as int),
{
    let mut i: usize = lo;
    while i < hi
        invariant
            lo <= i <= hi <= src@.len(),
            dst@ == old(dst)@ + src@.subrange(lo as int, i as int),
        decreases hi - i,
    {
        dst.push(src[i]);
        i += 1;
        assert(src@.subrange(lo as int, i as int) == src@.subrange(lo as int, i - 1).push(
            src@[i - 1],
        ));
    }
}

/// What a byte string is as a sequence, where there is one.
pub open spec fn bytes_of(b: Option<&[u8]>) -> Option<Seq<u8>> {
    match b {
        Some(s) => Some(s@),
        None => None,
    }
}

/// What an owned byte string is as a sequence, where there is one.
pub open spec fn owned_bytes_of(b: Option<Vec<u8>>) -> Option<Seq<u8>> {
    match b {
        Some(s) => Some(s@),
        None => None,
    }
}

/// The value that a lookup of `key` in `buf` gives: the text behind the marker
/// of the first entry of `key`, without trailing whitespace; `def` where the
/// key is 0 or has no entry.
pub open spec fn param_get(buf: Seq<u8>, key: i32, def: Option<Seq<u8>>) -> Option<Seq<u8>> {
    if key == 0 {
        def
    } else {
        match find(buf, key) {
            Some((s, e)) => Some(rtrim(buf.subrange(s + 2, e))),
            None => def,
        }
    }
}

/// The number that a lookup of `key` in `buf` gives: the number at the start
/// of the key's value; `def` where the key is 0 or has no entry.
pub open spec fn param_get_int(buf: Seq<u8>, key: i32, def: i32) -> int {
    match param_get(buf, key, None) {
        Some(v) => parse_int(v),
        None => def as int,
    }
}

/// `s`, led by a line feed unless it is empty.
pub open spec fn led(s: Seq<u8>) -> Seq<u8> {
    if s.len() > 0 {
        seq![10u8] + s
    } else {
        s
    }
}

/// `s`, followed by a line feed unless it is empty.
pub open spec fn closed(s: Seq<u8>) -> Seq<u8> {
    if s.len() > 0 {
        s + seq![10u8]
    } else {
        s
    }
}

/// The buffer that setting `key` to `value` makes of `buf`. The text before
/// the key's entry loses its trailing whitespace, the text behind it its
/// leading whitespace; between them stands the new entry, or, where `value`
/// is `None`, nothing. Without an entry the new one goes to the end.
pub open spec fn param_set(buf: Seq<u8>, key: i32, value: Option<Seq<u8>>) -> Seq<u8> {
    if key == 0 {
        buf
    } else {
        match (find(buf, key), value) {
            (None, None) => buf,
            (None, Some(v)) => closed(rtrim(buf)) + seq![key_byte(key), 61u8] + v,
            (Some((s, e)), Some(v)) => closed(rtrim(buf.subrange(0, s))) + seq![
                key_byte(key),
                61u8,
            ] + v + led(ltrim(buf.subrange(e, buf.len() as int))),
            (Some((s, e)), None) => {
                let before = rtrim(buf.subrange(0, s));
                let behind = ltrim(buf.subrange(e, buf.len() as int));
                if before.len() > 0 {
                    before + led(behind)
                } else {
                    behind
                }
            },
        }
    }
}

/// `buf` with every `&` turned into a line feed.
pub open spec fn ampersands_to_lines(buf: Seq<u8>) -> Seq<u8> {
    Seq::new(
        buf.len(),
        |i: int|
            if buf[i] == 38 {
                10u8
            } else {
                buf[i]
            },
    )
}

/// Whether `key` has an entry. A key of 0 has none.
pub fn dc_param_exists(param: &dc_param_t, key: i32) -> (r: bool)
    ensures
        r == (key != 0 && find(param@, key) is Some),
        r == (key != 0 && has_entry(param@, key)),
{
    if key == 0 {
        return false;
    }
    find_param(param.packed.as_slice(), key).is_some()
}

/// The value of `key` as an owned copy, without trailing whitespace. Where
/// the key is 0 or has no entry, a copy of `def`. An entry with nothing
/// behind the `=` gives the empty string, not `def`.
pub fn dc_param_get(param: &dc_param_t, key: i32, def: Option<&[u8]>) -> (r: Option<Vec<u8>>)
    ensures
        owned_bytes_of(r) == param_get(param@, key, bytes_of(def)),
{
    let found: Option<(usize, usize)> = if key == 0 {
        None
    } else {
        find_param(param.packed.as_slice(), key)
    };
    let mut out: Vec<u8> = Vec::new();
    match found {
        Some((s, e)) => {
            let end: usize = rtrim_end(param.packed.as_slice(), s + 2, e);
            extend_range(&mut out, param.packed.as_slice(), s + 2, end);
            Some(out)
        },
        None => match def {
            Some(d) => {
                extend_range(&mut out, d, 0, d.len());
                assert(d@.subrange(0, d@.len() as int) == d@);
                Some(out)
            },
            None => None,
        },
    }
}

/// The value of `key` read as a decimal number; `def` where the key is 0 or
/// has no entry.
pub fn dc_param_get_int(param: &dc_param_t, key: i32, def: i32) -> (r: i32)
    ensures
        r == param_get_int(param@, key, def),
{
    match dc_param_get(param, key, None) {
        Some(text) => parse_decimal(text.as_slice()),
        None => def,
    }
}

/// Sets `key` to `value`, or removes its entry where `value` is `None`. The
/// other entries keep their text and their order. Nothing changes where the
/// key is 0, or where there is nothing to remove.
pub fn dc_param_set(param: &mut dc_param_t, key: i32, value: Option<&[u8]>)
    ensures
        final(param)@ == param_set(old(param)@, key, bytes_of(value)),
{
    if key == 0 {
        return ;
    }
    let n: usize = param.packed.len();
    let found: Option<(usize, usize)> = find_param(param.packed.as_slice(), key);
    let (cut, resume): (usize, usize) = match found {
        Some((s, e)) => (s, e),
        None => {
            if value.is_none() {
                return ;
            }
            (n, n)
        },
    };
    let before_end: usize = rtrim_end(param.packed.as_slice(), 0, cut);
    let behind_start: usize = ltrim_start(param.packed.as_slice(), resume, n);
    let ghost buf = param.packed@;
    let ghost before = buf.subrange(0, before_end as int);
    let ghost behind = buf.subrange(behind_start as int, n as int);
    proof {
        assert(buf.subrange(0, n as int) == buf);
        assert(ltrim(buf.subrange(n as int, n as int)) == Seq::<u8>::empty());
    }
    let mut out: Vec<u8> = Vec::new();
    extend_range(&mut out, param.packed.as_slice(), 0, before_end);
    match value {
        Some(v) => {
            if before_end > 0 {
                out.push(10);
            }
            out.push(key_to_byte(key));
            out.push(61);
            extend_range(&mut out, v, 0, v.len());
            if behind_start < n {
                out.push(10);
            }
            extend_range(&mut out, param.packed.as_slice(), behind_start, n);
            proof {
                assert(v@.subrange(0, v@.len() as int) == v@);
                assert(out@ == closed(before) + seq![key_byte(key), 61u8] + v@ + led(behind));
            }
        },
        None => {
            if before_end > 0 && behind_start < n {
                out.push(10);
            }
            extend_range(&mut out, param.packed.as_slice(), behind_start, n);
            assert(out@ == if before_end > 0 {
                before + led(behind)
            } else {
                behind
            });
        },
    }
    param.packed = out;
}

/// Sets `key` to the decimal text of `value`.
pub fn dc_param_set_int(param: &mut dc_param_t, key: i32, value: i32)
    ensures
        final(param)@ == param_set(old(param)@, key, Some(decimal(value as int))),
{
    let text: Vec<u8> = format_decimal(value);
    dc_param_set(param, key, Some(text.as_slice()));
}

/// A store without entries.
pub fn dc_param_new() -> (r: dc_param_t)
    ensures
        r@ == Seq::<u8>::empty(),
{
    dc_param_t { packed: Vec::new() }
}

/// Removes every entry.
pub fn dc_param_empty(param: &mut dc_param_t)
    ensures
        final(param)@ == Seq::<u8>::empty(),
{
    param.packed = Vec::new();
}

/// Gives the store up, with its buffer.
pub fn dc_param_unref(param: dc_param_t) {
    let mut param = param;
    dc_param_empty(&mut param);
}

/// Replaces the whole buffer by a copy of `packed`, which is taken as it is;
/// `None` leaves the store empty.
pub fn dc_param_set_packed(param: &mut dc_param_t, packed: Option<&[u8]>)
    ensures
        final(param)@ == match packed {
            Some(p) => p@,
            None => Seq::<u8>::empty(),
        },
{
    let mut out: Vec<u8> = Vec::new();
    match packed {
        Some(p) => {
            extend_range(&mut out, p, 0, p.len());
            assert(p@.subrange(0, p@.len() as int) == p@);
        },
        None => {},
    }
    param.packed = out;
}

/// Replaces the whole buffer by a copy of `urlencoded` in which every `&` has
/// become a line feed; nothing else is decoded. `None` leaves the store empty.
pub fn dc_param_set_urlencoded(param: &mut dc_param_t, urlencoded: Option<&[u8]>)
    ensures
        final(param)@ == match urlencoded {
            Some(u) => ampersands_to_lines(u@),
            None => Seq::<u8>::empty(),
        },
{
    let mut out: Vec<u8> = Vec::new();
    match urlencoded {
        Some(u) => {
            let mut i: usize = 0;
            while i < u.len()
                invariant
                    i <= u@.len(),
                    out@ == ampersands_to_lines(u@).subrange(0, i as int),
                decreases u@.len() - i,
            {
                let b: u8 = u[i];
                if b == 38 {
                    out.push(10);
                } else {
                    out.push(b);
                }
                i += 1;
                assert(out@ == ampersands_to_lines(u@).subrange(0, i as int));
            }
            assert(ampersands_to_lines(u@).subrange(0, i as int) == ampersands_to_lines(u@));
        },
        None => {},
    }
    param.packed = out;
}

} // verus!
