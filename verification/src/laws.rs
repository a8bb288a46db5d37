//! What holds of the packed store across calls: a value that was set is read
//! back, a removed key is gone, setting twice is setting once, and the
//! entries around a changed one stay as they are.

use vstd::prelude::*;
use vstd::arithmetic::div_mod::{lemma_fundamental_div_mod_converse, lemma_small_mod};
use crate::number::{decimal, digits, is_digit, leading_number, parse_int, wrap32};
use crate::param::{
    closed,
    entry_at,
    find,
    has_entry,
    is_space,
    key_byte,
    led,
    lemma_find_none,
    lemma_find_some,
    line_start,
    ltrim,
    marker_at,
    param_get,
    param_get_int,
    param_set,
    rtrim,
};

verus! {

/// A key of the packed format: one byte that is not 0, a line feed or `=`.
pub open spec fn is_key(key: i32) -> bool {
    1 <= key <= 255 && key != 10 && key != 61
}

/// A value of the packed format: bytes without a line feed.
pub open spec fn is_value(v: Seq<u8>) -> bool {
    forall|i: int| 0 <= i < v.len() ==> v[i] != 10
}

/// A buffer of the packed format: every line begins with a key and `=`, no
/// key begins two lines, and the buffer does not end in a line feed.
pub open spec fn well_formed(buf: Seq<u8>) -> bool {
    &&& forall|p: int|
        line_start(buf, p) ==> buf[p] != 0 && buf[p] != 10 && buf[p] != 61 && p + 1 < buf.len()
            && buf[p + 1] == 61
    &&& forall|p: int, q: int|
        line_start(buf, p) && line_start(buf, q) && buf[p] == buf[q] ==> p == q
    &&& (buf.len() > 0 ==> buf.last() != 10)
}

/// A buffer in which no whitespace stands beside a line feed, and no line
/// feed at either end: no value ends in whitespace, no key is whitespace.
pub open spec fn tidy(buf: Seq<u8>) -> bool {
    forall|p: int|
        0 <= p < buf.len() && #[trigger] buf[p] == 10 ==> 0 < p && p + 1 < buf.len() && !is_space(buf[p - 1])
            && !is_space(buf[p + 1])
}

/// The first line feed at or behind `i`, or the length of `buf`.
pub open spec fn line_end(buf: Seq<u8>, i: int) -> int
    decreases buf.len() - i,
{
    if i >= buf.len() {
        buf.len() as int
    } else if buf[i] == 10 {
        i
    } else {
        line_end(buf, i + 1)
    }
}

proof fn lemma_line_end(buf: Seq<u8>, i: int)
    requires
        0 <= i <= buf.len(),
    ensures
        i <= line_end(buf, i) <= buf.len(),
        line_end(buf, i) < buf.len() ==> buf[line_end(buf, i)] == 10,
        forall|j: int| i <= j < line_end(buf, i) ==> buf[j] != 10,
    decreases buf.len() - i,
{
    if i < buf.len() && buf[i] != 10 {
        lemma_line_end(buf, i + 1);
    }
}

proof fn lemma_first_marker(buf: Seq<u8>, key: i32, p: int)
    requires
        line_start(buf, p),
        marker_at(buf, key, p),
    ensures
        exists|s: int, e: int| entry_at(buf, key, s, e),
    decreases p,
{
    if exists|q: int| 0 <= q < p && line_start(buf, q) && marker_at(buf, key, q) {
        let q = choose|q: int| 0 <= q < p && line_start(buf, q) && marker_at(buf, key, q);
        lemma_first_marker(buf, key, q);
    } else {
        lemma_line_end(buf, p + 2);
        assert(entry_at(buf, key, p, line_end(buf, p + 2)));
    }
}

/// `find` gives the first entry of the key, and gives nothing only where no
/// line begins with the key's marker.
pub proof fn lemma_find_complete(buf: Seq<u8>, key: i32)
    ensures
        match find(buf, key) {
            Some((s, e)) => entry_at(buf, key, s, e),
            None => !has_entry(buf, key),
        },
{
    if find(buf, key) is None {
        if has_entry(buf, key) {
            let p = choose|p: int| line_start(buf, p) && marker_at(buf, key, p);
            lemma_first_marker(buf, key, p);
        }
    } else {
        let (s, e) = choose|s: int, e: int| entry_at(buf, key, s, e);
        assert(entry_at(buf, key, s, e));
    }
}

/// Trimming on the right keeps a prefix that does not end in whitespace and
/// drops whitespace only.
pub proof fn lemma_rtrim(x: Seq<u8>)
    ensures
        rtrim(x).len() <= x.len(),
        rtrim(x) == x.subrange(0, rtrim(x).len() as int),
        rtrim(x).len() > 0 ==> !is_space(rtrim(x).last()),
        forall|i: int| rtrim(x).len() <= i < x.len() ==> is_space(x[i]),
    decreases x.len(),
{
    if x.len() > 0 && is_space(x.last()) {
        let y = x.drop_last();
        lemma_rtrim(y);
        assert(y.subrange(0, rtrim(y).len() as int) =~= x.subrange(0, rtrim(y).len() as int));
        assert forall|i: int| rtrim(x).len() <= i < x.len() implies is_space(x[i]) by {
            if i < y.len() {
                assert(x[i] == y[i]);
            }
        }
    } else {
        assert(x.subrange(0, x.len() as int) =~= x);
    }
}

/// Trimming on the left keeps a suffix that does not begin with whitespace
/// and drops whitespace only.
pub proof fn lemma_ltrim(x: Seq<u8>)
    ensures
        ltrim(x).len() <= x.len(),
        ltrim(x) == x.subrange(x.len() - ltrim(x).len(), x.len() as int),
        ltrim(x).len() > 0 ==> !is_space(ltrim(x).first()),
        forall|i: int| 0 <= i < x.len() - ltrim(x).len() ==> is_space(x[i]),
    decreases x.len(),
{
    if x.len() > 0 && is_space(x.first()) {
        let y = x.drop_first();
        lemma_ltrim(y);
        assert(y.subrange(y.len() - ltrim(y).len(), y.len() as int) =~= x.subrange(
            x.len() - ltrim(y).len(),
            x.len() as int,
        ));
        assert forall|i: int| 0 <= i < x.len() - ltrim(x).len() implies is_space(x[i]) by {
            if i > 0 {
                assert(x[i] == y[i - 1]);
            }
        }
    } else {
        assert(x.subrange(0, x.len() as int) =~= x);
    }
}

proof fn lemma_key_byte(key: i32)
    requires
        0 <= key <= 255,
    ensures
        key_byte(key) as int == key as int,
{
    assert(key & 0xff == key) by (bit_vector)
        requires
            0 <= key <= 255,
    ;
}

/// An entry that stands on a line of its own, behind lines of which none
/// begins with its key's marker, is the entry that a lookup finds, and the
/// lookup gives its value without the trailing whitespace. So a buffer that
/// was packed by hand gives back, key by key, the values that were packed.
pub proof fn lemma_entry_is_read(
    before: Seq<u8>,
    key: i32,
    v: Seq<u8>,
    behind: Seq<u8>,
    def: Option<Seq<u8>>,
)
    requires
        is_key(key),
        is_value(v),
        before.len() == 0 || before.last() == 10,
        !has_entry(before, key),
        behind.len() == 0 || behind.first() == 10,
    ensures
        find(before + seq![key_byte(key), 61u8] + v + behind, key) == Some(
            (before.len() as int, (before.len() + 2 + v.len()) as int),
        ),
        param_get(before + seq![key_byte(key), 61u8] + v + behind, key, def) == Some(rtrim(v)),
{
    let buf = before + seq![key_byte(key), 61u8] + v + behind;
    let s = before.len() as int;
    let e = s + 2 + v.len();
    lemma_key_byte(key);
    assert(buf[s] == key_byte(key));
    assert(buf[s + 1] == 61);
    assert(line_start(buf, s)) by {
        if s > 0 {
            assert(buf[s - 1] == before.last());
        }
    }
    assert forall|p: int| 0 <= p < s && line_start(buf, p) implies !marker_at(buf, key, p) by {
        assert(buf[p] == before[p]);
        if p > 0 {
            assert(buf[p - 1] == before[p - 1]);
        }
        assert(line_start(before, p));
        if marker_at(buf, key, p) {
            if p + 1 < s {
                assert(buf[p + 1] == before[p + 1]);
                assert(marker_at(before, key, p));
            }
        }
    }
    assert forall|i: int| s + 2 <= i < e implies buf[i] != 10 by {
        assert(buf[i] == v[i - s - 2]);
    }
    if e < buf.len() {
        assert(buf[e] == behind.first());
    }
    lemma_find_some(buf, key, s, e);
    assert(buf.subrange(s + 2, e) =~= v);
}

/// Every entry of a well-formed buffer is read back: a lookup of the key
/// that begins a line gives the text of that line behind the `=`, without
/// its trailing whitespace, whatever the default.
pub proof fn lemma_packed_reads_back(buf: Seq<u8>, p: int, def: Option<Seq<u8>>)
    requires
        well_formed(buf),
        line_start(buf, p),
    ensures
        p + 2 <= line_end(buf, p + 2) <= buf.len(),
        find(buf, buf[p] as i32) == Some((p, line_end(buf, p + 2))),
        param_get(buf, buf[p] as i32, def) == Some(
            rtrim(buf.subrange(p + 2, line_end(buf, p + 2))),
        ),
{
    let key = buf[p] as i32;
    lemma_line_end(buf, p + 2);
    assert(marker_at(buf, key, p));
    assert forall|q: int| 0 <= q < p && line_start(buf, q) implies !marker_at(buf, key, q) by {
        if marker_at(buf, key, q) {
            assert(buf[q] == buf[p]);
        }
    }
    lemma_find_some(buf, key, p, line_end(buf, p + 2));
}

/// The text that a set of `key` keeps in front of the new entry.
pub open spec fn kept_before(buf: Seq<u8>, key: i32) -> Seq<u8> {
    match find(buf, key) {
        Some((s, e)) => closed(rtrim(buf.subrange(0, s))),
        None => closed(rtrim(buf)),
    }
}

/// The text that a set of `key` keeps behind the new entry.
pub open spec fn kept_behind(buf: Seq<u8>, key: i32) -> Seq<u8> {
    match find(buf, key) {
        Some((s, e)) => led(ltrim(buf.subrange(e, buf.len() as int))),
        None => Seq::empty(),
    }
}

proof fn lemma_set_shape(buf: Seq<u8>, key: i32, v: Seq<u8>)
    requires
        is_key(key),
    ensures
        param_set(buf, key, Some(v)) == kept_before(buf, key) + seq![key_byte(key), 61u8] + v
            + kept_behind(buf, key),
        kept_before(buf, key).len() == 0 || kept_before(buf, key).last() == 10,
        !has_entry(kept_before(buf, key), key),
        kept_behind(buf, key).len() == 0 || kept_behind(buf, key).first() == 10,
        closed(rtrim(kept_before(buf, key))) == kept_before(buf, key),
        led(ltrim(kept_behind(buf, key))) == kept_behind(buf, key),
{
    lemma_find_complete(buf, key);
    let before = kept_before(buf, key);
    let behind = kept_behind(buf, key);
    let pre = match find(buf, key) {
        Some((s, e)) => buf.subrange(0, s),
        None => buf,
    };
    let cut = pre.len() as int;
    let kept = rtrim(pre);
    lemma_rtrim(pre);
    assert(before == closed(kept));
    assert(forall|i: int| 0 <= i < cut ==> pre[i] == buf[i]);
    assert(before + seq![key_byte(key), 61u8] + v + Seq::<u8>::empty() =~= before + seq![
        key_byte(key),
        61u8,
    ] + v);
    assert forall|p: int| line_start(before, p) implies !marker_at(before, key, p) by {
        if marker_at(before, key, p) {
            if p + 1 < kept.len() {
                assert(before[p] == buf[p]);
                assert(before[p + 1] == buf[p + 1]);
                if p > 0 {
                    assert(before[p - 1] == buf[p - 1]);
                }
                assert(line_start(buf, p));
                assert(marker_at(buf, key, p));
                assert(false);
            } else if p + 1 == kept.len() {
                assert(before[p + 1] == 10);
            } else {
                assert(before[p] == 10);
            }
        }
    }
    if kept.len() > 0 {
        assert(closed(kept).drop_last() =~= kept);
        assert(rtrim(closed(kept)) == rtrim(kept));
    }
    match find(buf, key) {
        Some((s, e)) => {
            let x = buf.subrange(e, buf.len() as int);
            lemma_ltrim(x);
            let rest = ltrim(x);
            if rest.len() > 0 {
                assert(led(rest).drop_first() =~= rest);
                assert(ltrim(led(rest)) == ltrim(rest));
            }
        },
        None => {},
    }
}

/// A value that was set is the value that is read, whatever the default:
/// the lookup gives it without its trailing whitespace, so a value that ends
/// in none comes back as it was.
pub proof fn lemma_set_then_get(buf: Seq<u8>, key: i32, v: Seq<u8>, def: Option<Seq<u8>>)
    requires
        is_key(key),
        is_value(v),
    ensures
        has_entry(param_set(buf, key, Some(v)), key),
        param_get(param_set(buf, key, Some(v)), key, def) == Some(rtrim(v)),
        v.len() == 0 || !is_space(v.last()) ==> param_get(param_set(buf, key, Some(v)), key, def)
            == Some(v),
{
    lemma_set_shape(buf, key, v);
    lemma_entry_is_read(kept_before(buf, key), key, v, kept_behind(buf, key), def);
    lemma_find_complete(param_set(buf, key, Some(v)), key);
}

/// Setting a key to the same value twice gives the buffer that setting it
/// once gives.
pub proof fn lemma_set_twice(buf: Seq<u8>, key: i32, v: Seq<u8>)
    requires
        is_key(key),
        is_value(v),
    ensures
        param_set(param_set(buf, key, Some(v)), key, Some(v)) == param_set(buf, key, Some(v)),
{
    lemma_set_shape(buf, key, v);
    let before = kept_before(buf, key);
    let behind = kept_behind(buf, key);
    lemma_entry_is_read(before, key, v, behind, None);
    let once = param_set(buf, key, Some(v));
    let s = before.len() as int;
    let e = s + 2 + v.len();
    assert(once.subrange(0, s) =~= before);
    assert(once.subrange(e, once.len() as int) =~= behind);
}

/// Once a key was removed from a well-formed buffer it has no entry, and a
/// lookup gives the default.
pub proof fn lemma_remove_then_get(buf: Seq<u8>, key: i32, def: Option<Seq<u8>>)
    requires
        well_formed(buf),
        is_key(key),
    ensures
        !has_entry(param_set(buf, key, None), key),
        find(param_set(buf, key, None), key) is None,
        param_get(param_set(buf, key, None), key, def) == def,
{
    lemma_find_complete(buf, key);
    let new = param_set(buf, key, None);
    match find(buf, key) {
        None => {},
        Some((s, e)) => {
            let pre = buf.subrange(0, s);
            let x = buf.subrange(e, buf.len() as int);
            let before = rtrim(pre);
            let behind = ltrim(x);
            lemma_rtrim(pre);
            lemma_ltrim(x);
            let a = before.len() as int;
            let n0 = x.len() - behind.len();
            let q0 = e + n0;
            let off = new.len() - behind.len();
            assert(forall|i: int| 0 <= i < a ==> before[i] == buf[i]);
            assert(forall|j: int| 0 <= j < behind.len() ==> behind[j] == buf[q0 + j]);
            assert forall|p: int| line_start(new, p) implies !marker_at(new, key, p) by {
                if marker_at(new, key, p) {
                    if p < a {
                        assert(new[p] == buf[p]);
                        if p > 0 {
                            assert(new[p - 1] == buf[p - 1]);
                        }
                        assert(line_start(buf, p));
                        if p + 1 < a {
                            assert(new[p + 1] == buf[p + 1]);
                            assert(marker_at(buf, key, p));
                            assert(false);
                        } else {
                            assert(new[p + 1] == 10);
                            assert(false);
                        }
                    } else if p < off {
                        assert(new[p] == 10);
                        assert(false);
                    } else {
                        let j = p - off;
                        assert(new[p] == behind[j]);
                        assert(new[p + 1] == behind[j + 1]);
                        assert(marker_at(buf, key, q0 + j));
                        if j >= 1 {
                            assert(new[p - 1] == behind[j - 1]);
                            assert(line_start(buf, q0 + j));
                            assert(line_start(buf, s));
                            assert(buf[q0 + j] == buf[s]);
                            assert(false);
                        } else {
                            assert(buf[e] == 10);
                            assert(x[0] == buf[e]);
                            assert(is_space(x[0]));
                            assert(behind.first() == x[n0]);
                            assert(n0 >= 1);
                            assert(line_start(buf, e + 1));
                            assert(line_start(buf, s));
                            if n0 == 1 {
                                assert(buf[q0] == buf[s]);
                                assert(false);
                            } else {
                                assert(x[2] == buf[e + 2]);
                                assert(!is_space(x[2]));
                                assert(n0 == 2);
                                assert(buf[q0] == 61);
                                assert(false);
                            }
                        }
                    }
                }
            }
        },
    }
    lemma_find_none(new, key);
}

/// In a tidy buffer a set changes nothing but the value of its key: the text
/// before the entry and the text behind it stay byte for byte, so every other
/// entry keeps its text and its place in the order.
pub proof fn lemma_set_keeps_others(buf: Seq<u8>, key: i32, v: Seq<u8>, s: int, e: int)
    requires
        tidy(buf),
        key != 0,
        entry_at(buf, key, s, e),
    ensures
        param_set(buf, key, Some(v)) == buf.subrange(0, s) + seq![key_byte(key), 61u8] + v
            + buf.subrange(e, buf.len() as int),
{
    lemma_find_some(buf, key, s, e);
    let pre = buf.subrange(0, s);
    let x = buf.subrange(e, buf.len() as int);
    if s > 0 {
        assert(buf[s - 1] == 10);
        assert(pre.last() == buf[s - 1]);
        assert(pre.drop_last() =~= buf.subrange(0, s - 1));
        assert(pre.drop_last().last() == buf[s - 2]);
        assert(rtrim(pre) == rtrim(pre.drop_last()));
        assert(rtrim(pre.drop_last()) == pre.drop_last());
        assert(closed(pre.drop_last()) =~= pre);
    } else {
        assert(pre =~= Seq::<u8>::empty());
    }
    if e < buf.len() {
        assert(buf[e] == 10);
        assert(x.first() == buf[e]);
        assert(x.drop_first() =~= buf.subrange(e + 1, buf.len() as int));
        assert(x.drop_first().first() == buf[e + 1]);
        assert(ltrim(x) == ltrim(x.drop_first()));
        assert(ltrim(x.drop_first()) == x.drop_first());
        assert(led(x.drop_first()) =~= x);
    } else {
        assert(x =~= Seq::<u8>::empty());
    }
}

proof fn lemma_digit_behind(s: Seq<u8>, d: u8, acc: int)
    requires
        forall|i: int| 0 <= i < s.len() ==> is_digit(s[i]),
        is_digit(d),
    ensures
        leading_number(s.push(d), acc) == leading_number(s, acc) * 10 + (d - 48),
    decreases s.len(),
{
    let t = s.push(d);
    if s.len() == 0 {
        assert(t.first() == d);
        assert(t.drop_first() =~= Seq::<u8>::empty());
        assert(leading_number(t.drop_first(), acc * 10 + (d - 48)) == acc * 10 + (d - 48));
    } else {
        assert(t.first() == s.first());
        assert(t.drop_first() =~= s.drop_first().push(d));
        lemma_digit_behind(s.drop_first(), d, acc * 10 + (s.first() - 48));
    }
}

/// The digits written for a number are digits, and spell the number.
pub proof fn lemma_digits_spell(m: nat)
    ensures
        digits(m).len() > 0,
        forall|i: int| 0 <= i < digits(m).len() ==> is_digit(#[trigger] digits(m)[i]),
        leading_number(digits(m), 0) == m,
    decreases m,
{
    if m < 10 {
        let s = digits(m);
        assert(s.drop_first() =~= Seq::<u8>::empty());
        assert(leading_number(s.drop_first(), 0 * 10 + (s.first() - 48)) == m);
    } else {
        lemma_digits_spell(m / 10);
        lemma_digit_behind(digits(m / 10), (48 + m % 10) as u8, 0);
    }
}

/// Reading the decimal text of a 32-bit number gives the number.
pub proof fn lemma_parse_of_decimal(n: i32)
    ensures
        parse_int(decimal(n as int)) == n,
        is_value(decimal(n as int)),
        rtrim(decimal(n as int)) == decimal(n as int),
{
    let m: nat = if n < 0 {
        (-n) as nat
    } else {
        n as nat
    };
    lemma_digits_spell(m);
    let t = decimal(n as int);
    let d = digits(m);
    assert(is_digit(d[0]));
    assert(is_digit(d[d.len() - 1]));
    assert(wrap32(n as int) == n) by {
        if n >= 0 {
            lemma_small_mod(n as nat, 0x1_0000_0000);
        } else {
            lemma_fundamental_div_mod_converse(n as int, 0x1_0000_0000, -1, n + 0x1_0000_0000);
        }
    }
    if n < 0 {
        assert(t.first() == 45);
        assert(t.drop_first() =~= d);
        assert(t.last() == d.last());
        assert forall|i: int| 0 <= i < t.len() implies t[i] != 10 by {
            if i > 0 {
                assert(t[i] == d[i - 1]);
            }
        }
    } else {
        assert(t == d);
    }
    assert(ltrim(t) == t);
    assert(rtrim(t) == t);
}

/// A number that was set is the number that is read, whatever the default.
pub proof fn lemma_set_int_then_get_int(buf: Seq<u8>, key: i32, n: i32, def: i32)
    requires
        is_key(key),
    ensures
        param_get_int(param_set(buf, key, Some(decimal(n as int))), key, def) == n,
{
    lemma_parse_of_decimal(n);
    lemma_set_then_get(buf, key, decimal(n as int), None);
}

/// A key without an entry reads as the default number; so does every key of
/// an empty store.
pub proof fn lemma_absent_reads_default(buf: Seq<u8>, key: i32, def: i32)
    requires
        !has_entry(buf, key),
    ensures
        param_get_int(buf, key, def) == def,
        param_get(buf, key, None) is None,
{
    lemma_find_none(buf, key);
}

/// An empty store has no entry for any key.
pub proof fn lemma_empty_has_no_entry(key: i32)
    ensures
        !has_entry(Seq::<u8>::empty(), key),
        find(Seq::<u8>::empty(), key) is None,
{
    lemma_find_none(Seq::<u8>::empty(), key);
}

/// No line begins with whitespace: no key is a whitespace byte.
pub open spec fn plain_keys(buf: Seq<u8>) -> bool {
    forall|p: int| line_start(buf, p) ==> !is_space(buf[p])
}

/// The buffers that the store is meant to hold: well formed, with keys that
/// trimming cannot take for whitespace.
pub open spec fn packed_format(buf: Seq<u8>) -> bool {
    well_formed(buf) && plain_keys(buf)
}

/// A key that is not a whitespace byte.
pub open spec fn is_plain_key(key: i32) -> bool {
    is_key(key) && key != 32 && !(9 <= key <= 13)
}

/// `p` begins a line of `whole`, and this line is the line of `part` that
/// begins at `p - shift`, with the same key and the same byte behind it.
pub open spec fn line_of(whole: Seq<u8>, p: int, part: Seq<u8>, shift: int) -> bool {
    line_start(part, p - shift) && part[p - shift] == whole[p]
}

/// An entry as text: the key's byte, `=`, and the value.
pub open spec fn entry_text(key: i32, v: Seq<u8>) -> Seq<u8> {
    seq![key_byte(key), 61u8] + v
}

/// Two texts with a line feed between them.
pub open spec fn joined(l: Seq<u8>, r: Seq<u8>) -> Seq<u8> {
    l + seq![10u8] + r
}

proof fn lemma_join(l: Seq<u8>, r: Seq<u8>)
    requires
        packed_format(l),
        packed_format(r),
        l.len() > 0,
        r.len() > 0,
        forall|p: int, q: int| line_start(l, p) && line_start(r, q) ==> l[p] != r[q],
    ensures
        packed_format(joined(l, r)),
        forall|p: int| #[trigger]
            line_start(joined(l, r), p) ==> line_of(joined(l, r), p, l, 0) || line_of(
                joined(l, r),
                p,
                r,
                (l.len() + 1) as int,
            ),
{
    let new = joined(l, r);
    let n = l.len() as int;
    assert forall|p: int| #[trigger] line_start(new, p) implies (line_of(new, p, l, 0) && p + 1
        < n && new[p + 1] == 61) || (line_of(new, p, r, n + 1) && p + 1 < new.len() && new[p + 1]
        == 61) by {
        if p < n {
            if p > 0 {
                assert(new[p - 1] == l[p - 1]);
            }
            assert(line_start(l, p));
            assert(new[p] == l[p]);
            assert(new[p + 1] == l[p + 1]);
        } else if p == n {
            assert(new[p - 1] == l.last());
            assert(false);
        } else {
            let j = p - n - 1;
            if j > 0 {
                assert(new[p - 1] == r[j - 1]);
            }
            assert(line_start(r, j));
            assert(new[p] == r[j]);
            assert(new[p + 1] == r[j + 1]);
        }
    }
    assert(new.last() == r.last());
    assert forall|p: int, q: int|
        line_start(new, p) && line_start(new, q) && new[p] == new[q] implies p == q by {
        if line_of(new, p, l, 0) && p + 1 < n {
            if !(line_of(new, q, l, 0) && q + 1 < n) {
                assert(line_start(r, q - (n + 1)));
                assert(false);
            }
        } else {
            if line_of(new, q, l, 0) && q + 1 < n {
                assert(line_start(r, p - (n + 1)));
                assert(false);
            } else {
                assert(p - (n + 1) == q - (n + 1));
            }
        }
    }
    assert(well_formed(new));
    assert(plain_keys(new));
}

proof fn lemma_single_entry(key: i32, v: Seq<u8>)
    requires
        is_plain_key(key),
        is_value(v),
    ensures
        packed_format(entry_text(key, v)),
        forall|p: int| #[trigger]
            line_start(entry_text(key, v), p) ==> p == 0 && entry_text(key, v)[p] as int
                == key as int,
{
    let e = entry_text(key, v);
    lemma_key_byte(key);
    assert(e[0] == key_byte(key));
    assert(e[1] == 61);
    assert forall|p: int| #[trigger] line_start(e, p) implies p == 0 by {
        if p >= 3 {
            assert(e[p - 1] == v[p - 3]);
        }
    }
    if v.len() > 0 {
        assert(e.last() == v.last());
    }
}

proof fn lemma_front_part(buf: Seq<u8>, c: int)
    requires
        packed_format(buf),
        0 < c <= buf.len(),
        c == buf.len() || line_start(buf, c),
    ensures
        packed_format(rtrim(buf.subrange(0, c))),
        rtrim(buf.subrange(0, c)).len() > 0,
        forall|p: int| #[trigger]
            line_start(rtrim(buf.subrange(0, c)), p) ==> p < c && line_of(buf, p, rtrim(
                buf.subrange(0, c),
            ), 0) && line_start(buf, p),
{
    let pre = buf.subrange(0, c);
    let k = rtrim(pre);
    lemma_rtrim(pre);
    let m = k.len() as int;
    assert(forall|i: int| 0 <= i < m ==> k[i] == buf[i]);
    assert(line_start(buf, 0));
    assert(!is_space(pre[0]));
    assert(m > 0);
    assert forall|p: int| #[trigger] line_start(k, p) implies p < c && line_of(buf, p, k, 0)
        && line_start(buf, p) && p + 1 < m && k[p + 1] == 61 by {
        if p > 0 {
            assert(k[p - 1] == buf[p - 1]);
        }
        assert(line_start(buf, p));
        assert(buf[p + 1] == 61);
        if p + 1 >= c {
            assert(line_start(buf, c));
            assert(buf[c - 1] == 10);
            assert(false);
        }
        assert(pre[p + 1] == buf[p + 1]);
        assert(!is_space(pre[p + 1]));
    }
    assert(well_formed(k));
    assert(plain_keys(k));
}

proof fn lemma_back_part(buf: Seq<u8>, e: int)
    requires
        packed_format(buf),
        0 < e < buf.len(),
        buf[e] == 10,
    ensures
        ltrim(buf.subrange(e, buf.len() as int)) == buf.subrange(e + 1, buf.len() as int),
        buf.subrange(e + 1, buf.len() as int).len() > 0,
        packed_format(buf.subrange(e + 1, buf.len() as int)),
        forall|p: int| #[trigger]
            line_start(buf.subrange(e + 1, buf.len() as int), p) ==> line_start(buf, p + e + 1)
                && buf[p + e + 1] == buf.subrange(e + 1, buf.len() as int)[p],
{
    let x = buf.subrange(e, buf.len() as int);
    let r = buf.subrange(e + 1, buf.len() as int);
    assert(buf.last() != 10);
    assert(line_start(buf, e + 1));
    assert(x.first() == buf[e]);
    assert(x.drop_first() =~= r);
    assert(r.first() == buf[e + 1]);
    assert(ltrim(x) == ltrim(r));
    assert(ltrim(r) == r);
    assert forall|p: int| #[trigger] line_start(r, p) implies line_start(buf, p + e + 1) && buf[p
        + e + 1] == r[p] && p + 1 < r.len() && r[p + 1] == 61 by {
        if p > 0 {
            assert(r[p - 1] == buf[p + e]);
        }
        assert(line_start(buf, p + e + 1));
        assert(buf[p + e + 2] == 61);
        assert(r[p + 1] == buf[p + e + 2]);
    }
    assert(r.last() == buf.last());
    assert(well_formed(r));
    assert(plain_keys(r));
}

/// A set or a removal keeps the format: from a well-formed buffer with
/// plain keys, a plain key and a value without a line feed, it makes such a
/// buffer again.
pub proof fn lemma_set_keeps_format(buf: Seq<u8>, key: i32, value: Option<Seq<u8>>)
    requires
        packed_format(buf),
        is_plain_key(key),
        value matches Some(v) ==> is_value(v),
    ensures
        packed_format(param_set(buf, key, value)),
{
    lemma_find_complete(buf, key);
    lemma_key_byte(key);
    let new = param_set(buf, key, value);
    let n = buf.len() as int;
    match find(buf, key) {
        None => {
            if let Some(v) = value {
                let entry = entry_text(key, v);
                lemma_single_entry(key, v);
                if n > 0 {
                    let k = rtrim(buf);
                    assert(buf.subrange(0, n) =~= buf);
                    lemma_front_part(buf, n);
                    assert forall|p: int, q: int|
                        line_start(k, p) && line_start(entry, q) implies k[p] != entry[q] by {
                        if k[p] == entry[q] {
                            assert(line_start(buf, p));
                            assert(marker_at(buf, key, p));
                        }
                    }
                    lemma_join(k, entry);
                    assert(new =~= joined(k, entry));
                } else {
                    assert(rtrim(buf) =~= Seq::<u8>::empty());
                    assert(new =~= entry);
                }
            }
        },
        Some((s, e)) => {
            let k = rtrim(buf.subrange(0, s));
            let r = ltrim(buf.subrange(e, n));
            assert(line_start(buf, s));
            if s > 0 {
                lemma_front_part(buf, s);
            } else {
                assert(buf.subrange(0, s) =~= Seq::<u8>::empty());
                assert(k =~= Seq::<u8>::empty());
            }
            if e < n {
                lemma_back_part(buf, e);
            } else {
                assert(buf.subrange(e, n) =~= Seq::<u8>::empty());
                assert(r =~= Seq::<u8>::empty());
            }
            assert forall|p: int, q: int|
                k.len() > 0 && r.len() > 0 && line_start(k, p) && line_start(r, q) implies k[p]
                != r[q] by {
                assert(line_start(buf, p));
                assert(line_start(buf, q + e + 1));
            }
            match value {
                Some(v) => {
                    let entry = entry_text(key, v);
                    lemma_single_entry(key, v);
                    assert forall|p: int, q: int|
                        k.len() > 0 && line_start(k, p) && line_start(entry, q) implies k[p]
                        != entry[q] by {
                        assert(line_start(buf, p));
                    }
                    assert forall|p: int, q: int|
                        r.len() > 0 && line_start(entry, p) && line_start(r, q) implies entry[p]
                        != r[q] by {
                        assert(line_start(buf, q + e + 1));
                    }
                    if k.len() > 0 {
                        lemma_join(k, entry);
                        let front = joined(k, entry);
                        if r.len() > 0 {
                            assert forall|p: int, q: int|
                                line_start(front, p) && line_start(r, q) implies front[p]
                                != r[q] by {
                                if line_of(front, p, k, 0) {
                                    assert(line_start(k, p));
                                } else {
                                    assert(line_start(entry, p - (k.len() + 1)));
                                }
                            }
                            lemma_join(front, r);
                            assert(new =~= joined(front, r));
                        } else {
                            assert(new =~= front);
                        }
                    } else {
                        if r.len() > 0 {
                            lemma_join(entry, r);
                            assert(new =~= joined(entry, r));
                        } else {
                            assert(new =~= entry);
                        }
                    }
                },
                None => {
                    if k.len() > 0 && r.len() > 0 {
                        lemma_join(k, r);
                        assert(new =~= joined(k, r));
                    } else if k.len() > 0 {
                        assert(new =~= k);
                    } else {
                        assert(new =~= r);
                    }
                },
            }
        },
    }
}

} // verus!
