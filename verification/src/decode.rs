use vstd::prelude::*;
use crate::resp::{BulkStr, Resp, RespV, resp_views, wf_resp};
use crate::encode::{crlf, dec_digits, encode_elems, encode_spec, int_bytes};

verus! {

broadcast use vstd::std_specs::vec::group_vec_axioms, vstd::seq::group_seq_axioms;

/// Largest integer value a frame may carry.
pub open spec fn int_max() -> int {
    0x7fff_ffff_ffff_ffff
}

/// Bulk-string lengths and array counts must lie below this bound.
pub open spec fn len_bound() -> int {
    0x1_0000_0000
}

/// What one attempt to read a frame from the front of a byte sequence gives:
/// a complete value and the number of bytes it took, a request for more
/// bytes, or a protocol violation.
pub enum DecodeStep {
    Frame(RespV, int),
    Incomplete,
    Invalid,
}

/// The same, for a run of array elements.
pub enum ListStep {
    Elems(Seq<RespV>, int),
    Incomplete,
    Invalid,
}

/// One line extracted from the front of a byte sequence: the bytes between
/// the type marker and the first line terminator, and the index just past
/// the terminator.
pub enum LineStep {
    Line(Seq<u8>, int),
    Incomplete,
    Invalid,
}

/// Index of the first carriage-return or line-feed byte at or after `i`,
/// or `s.len()` when there is none.
pub open spec fn find_mark(s: Seq<u8>, i: int) -> int
    decreases s.len() - i,
{
    if i >= s.len() {
        s.len() as int
    } else if s[i] == 13 || s[i] == 10 {
        i
    } else {
        find_mark(s, i + 1)
    }
}

pub proof fn lemma_find_mark(s: Seq<u8>, i: int)
    requires
        0 <= i <= s.len(),
    ensures
        i <= find_mark(s, i) <= s.len(),
        find_mark(s, i) < s.len() ==> s[find_mark(s, i)] == 13 || s[find_mark(s, i)] == 10,
        forall|k: int| i <= k < find_mark(s, i) ==> s[k] != 13 && s[k] != 10,
    decreases s.len() - i,
{
    if i < s.len() && s[i] != 13 && s[i] != 10 {
        lemma_find_mark(s, i + 1);
    }
}

/// Where a terminator is known to sit right after a run of plain bytes,
/// the scan stops exactly there.
pub proof fn lemma_find_mark_exact(s: Seq<u8>, i: int, j: int)
    requires
        0 <= i <= j < s.len(),
        s[j] == 13 || s[j] == 10,
        forall|k: int| i <= k < j ==> s[k] != 13 && s[k] != 10,
    ensures
        find_mark(s, i) == j,
    decreases j - i,
{
    if i < j {
        lemma_find_mark_exact(s, i + 1, j);
    }
}

/// The line of a frame: bytes from index 1 up to the first terminator,
/// which must be a carriage return followed by a line feed.
pub open spec fn line_at(s: Seq<u8>) -> LineStep {
    let j = find_mark(s, 1);
    if j >= s.len() {
        LineStep::Incomplete
    } else if s[j] == 10 {
        LineStep::Invalid
    } else if j + 1 >= s.len() {
        LineStep::Incomplete
    } else if s[j + 1] != 10 {
        LineStep::Invalid
    } else {
        LineStep::Line(s.subrange(1, j), j + 2)
    }
}

/// Every byte of `b` is a decimal digit.
pub open spec fn is_digits(b: Seq<u8>) -> bool {
    forall|k: int| 0 <= k < b.len() ==> 48 <= #[trigger] b[k] <= 57
}

/// Digits in canonical form: nonempty, and no leading zero except for the
/// single digit zero itself.
pub open spec fn is_canon_digits(b: Seq<u8>) -> bool {
    b.len() > 0 && is_digits(b) && (b.len() == 1 || b[0] != 48)
}

/// Value of a digit run, most significant first.
pub open spec fn dec_val(b: Seq<u8>) -> int
    decreases b.len(),
{
    if b.len() == 0 {
        0
    } else {
        dec_val(b.drop_last()) * 10 + (b.last() - 48)
    }
}

/// A canonical signed integer line: digits, or a minus sign before the
/// digits of a positive value.
pub open spec fn int_line_ok(b: Seq<u8>) -> bool {
    if b.len() > 0 && b[0] == 45 {
        is_canon_digits(b.drop_first()) && dec_val(b.drop_first()) > 0
    } else {
        is_canon_digits(b)
    }
}

pub open spec fn int_line_val(b: Seq<u8>) -> int {
    if b.len() > 0 && b[0] == 45 {
        -dec_val(b.drop_first())
    } else {
        dec_val(b)
    }
}

/// Reads one frame from the front of `s`.  The nil markers are the exact
/// line `-1`; any other negative or non-canonical length is a violation.
pub open spec fn decode0(s: Seq<u8>) -> DecodeStep
    decreases s.len(), 1int,
{
    if s.len() == 0 {
        DecodeStep::Incomplete
    } else if s[0] == 43 || s[0] == 45 {
        match line_at(s) {
            LineStep::Line(b, e) => if s[0] == 43 {
                DecodeStep::Frame(RespV::Simple(b), e)
            } else {
                DecodeStep::Frame(RespV::Error(b), e)
            },
            LineStep::Incomplete => DecodeStep::Incomplete,
            LineStep::Invalid => DecodeStep::Invalid,
        }
    } else if s[0] == 58 {
        match line_at(s) {
            LineStep::Line(b, e) => if int_line_ok(b) && -int_max() <= int_line_val(b)
                <= int_max() {
                DecodeStep::Frame(RespV::Integer(int_line_val(b)), e)
            } else {
                DecodeStep::Invalid
            },
            LineStep::Incomplete => DecodeStep::Incomplete,
            LineStep::Invalid => DecodeStep::Invalid,
        }
    } else if s[0] == 36 {
        match line_at(s) {
            LineStep::Line(b, e) => if b == seq![45u8, 49u8] {
                DecodeStep::Frame(RespV::BulkNil, e)
            } else if is_canon_digits(b) && dec_val(b) < len_bound() {
                let n = dec_val(b);
                if e + n + 2 > s.len() {
                    DecodeStep::Incomplete
                } else if s[e + n] == 13 && s[e + n + 1] == 10 {
                    DecodeStep::Frame(RespV::Bulk(s.subrange(e, e + n)), e + n + 2)
                } else {
                    DecodeStep::Invalid
                }
            } else {
                DecodeStep::Invalid
            },
            LineStep::Incomplete => DecodeStep::Incomplete,
            LineStep::Invalid => DecodeStep::Invalid,
        }
    } else if s[0] == 42 {
        match line_at(s) {
            LineStep::Line(b, e) => if b == seq![45u8, 49u8] {
                DecodeStep::Frame(RespV::ArrNil, e)
            } else if is_canon_digits(b) && dec_val(b) < len_bound() {
                if e < 3 || e > s.len() {
                    DecodeStep::Invalid
                } else {
                    match decode_list(s.subrange(e, s.len() as int), dec_val(b)) {
                        ListStep::Elems(vs, c) => DecodeStep::Frame(RespV::Arr(vs), e + c),
                        ListStep::Incomplete => DecodeStep::Incomplete,
                        ListStep::Invalid => DecodeStep::Invalid,
                    }
                }
            } else {
                DecodeStep::Invalid
            },
            LineStep::Incomplete => DecodeStep::Incomplete,
            LineStep::Invalid => DecodeStep::Invalid,
        }
    } else {
        DecodeStep::Invalid
    }
}

/// Reads `n` frames, one after the other, from the front of `s`.
pub open spec fn decode_list(s: Seq<u8>, n: int) -> ListStep
    decreases s.len(), 2int,
{
    if n <= 0 {
        ListStep::Elems(Seq::empty(), 0)
    } else {
        match decode0(s) {
            DecodeStep::Frame(v, c) => if c < 1 || c > s.len() {
                ListStep::Invalid
            } else {
                match decode_list(s.subrange(c, s.len() as int), n - 1) {
                    ListStep::Elems(vs, c2) => ListStep::Elems(seq![v] + vs, c + c2),
                    ListStep::Incomplete => ListStep::Incomplete,
                    ListStep::Invalid => ListStep::Invalid,
                }
            },
            DecodeStep::Incomplete => ListStep::Incomplete,
            DecodeStep::Invalid => ListStep::Invalid,
        }
    }
}

pub proof fn lemma_dec_digits(n: nat)
    ensures
        is_canon_digits(dec_digits(n)),
        dec_val(dec_digits(n)) == n,
        n >= 1 ==> dec_digits(n)[0] != 48,
    decreases n,
{
    if n < 10 {
        reveal_with_fuel(dec_val, 3);
        assert(dec_digits(n) =~= seq![(48 + n) as u8]);
        assert(seq![(48 + n) as u8].drop_last() =~= Seq::<u8>::empty());
        assert(dec_val(dec_digits(n)) == n);
    } else {
        lemma_dec_digits(n / 10);
        let pre = dec_digits(n / 10);
        let b = dec_digits(n);
        assert(b == pre.push((48 + n % 10) as u8));
        assert(b.drop_last() =~= pre);
        assert(b.last() == (48 + n % 10) as u8);
        assert(dec_val(b) == dec_val(pre) * 10 + n % 10);
        assert(dec_val(b) == n);
        assert(b[0] == pre[0]);
        assert(forall|k: int| 0 <= k < b.len() ==> 48 <= #[trigger] b[k] <= 57) by {
            assert(forall|k: int| 0 <= k < pre.len() ==> b[k] == pre[k]);
        }
    }
}

pub proof fn lemma_int_bytes(i: int)
    requires
        -int_max() <= i <= int_max(),
    ensures
        int_line_ok(int_bytes(i)),
        int_line_val(int_bytes(i)) == i,
        forall|k: int|
            0 <= k < int_bytes(i).len() ==> #[trigger] int_bytes(i)[k] != 13 && int_bytes(i)[k]
                != 10,
{
    if i < 0 {
        lemma_dec_digits((-i) as nat);
        let b = int_bytes(i);
        assert(b == seq![45u8] + dec_digits((-i) as nat));
        assert(b[0] == 45);
        assert(b.drop_first() =~= dec_digits((-i) as nat));
        assert(int_line_val(b) == i);
    } else {
        lemma_dec_digits(i as nat);
        let b = int_bytes(i);
        assert(b == dec_digits(i as nat));
        assert(b[0] != 45);
        assert(int_line_val(b) == i);
    }
}

/// Every encoding occupies at least one byte.
pub proof fn lemma_encode_min_len(v: RespV)
    ensures
        encode_spec(v).len() >= 1,
{
    match v {
        RespV::Integer(i) => {
            if i < 0 {
                lemma_dec_digits((-i) as nat);
            } else {
                lemma_dec_digits(i as nat);
            }
        },
        RespV::Bulk(s) => {
            lemma_dec_digits(s.len());
        },
        RespV::Arr(elems) => {
            lemma_dec_digits(elems.len());
        },
        _ => {
        },
    }
}

proof fn lemma_line_concat(t: u8, b: Seq<u8>, tail: Seq<u8>)
    requires
        forall|k: int| 0 <= k < b.len() ==> #[trigger] b[k] != 13 && b[k] != 10,
    ensures
        line_at(seq![t] + b + crlf() + tail) == LineStep::Line(b, b.len() + 3int),
{
    let s = seq![t] + b + crlf() + tail;
    let j = 1 + b.len() as int;
    assert(s.len() == b.len() + 3 + tail.len());
    assert(s[j] == 13);
    assert(s[j + 1] == 10);
    assert forall|k: int| 1 <= k < j implies s[k] != 13 && s[k] != 10 by {
        assert(s[k] == b[k - 1]);
    }
    lemma_find_mark_exact(s, 1, j);
    assert(s.subrange(1, j) =~= b);
}

/// Round trip: decoding the encoding of a well-formed value, whatever
/// bytes follow it, yields that very value and consumes exactly its
/// encoding.
pub proof fn lemma_decode_encode(v: RespV, tail: Seq<u8>)
    requires
        wf_resp(v),
    ensures
        decode0(encode_spec(v) + tail) == DecodeStep::Frame(v, encode_spec(v).len() as int),
    decreases v, 0int,
{
    let s = encode_spec(v) + tail;
    match v {
        RespV::Simple(b) => {
            assert(s =~= seq![43u8] + b + crlf() + tail);
            lemma_line_concat(43u8, b, tail);
            assert(s[0] == 43);
        },
        RespV::Error(b) => {
            assert(s =~= seq![45u8] + b + crlf() + tail);
            lemma_line_concat(45u8, b, tail);
            assert(s[0] == 45);
        },
        RespV::Integer(i) => {
            lemma_int_bytes(i);
            assert(s =~= seq![58u8] + int_bytes(i) + crlf() + tail);
            lemma_line_concat(58u8, int_bytes(i), tail);
            assert(s[0] == 58);
            assert(int_bytes(i)[0] != 13 && int_bytes(i)[0] != 10);
            assert(int_bytes(i).len() >= 1);
        },
        RespV::Bulk(b) => {
            let dl = dec_digits(b.len());
            lemma_dec_digits(b.len());
            assert(s =~= seq![36u8] + dl + (crlf() + b + crlf() + tail));
            assert(s =~= seq![36u8] + dl + crlf() + (b + crlf() + tail));
            lemma_line_concat(36u8, dl, b + crlf() + tail);
            assert(s[0] == 36);
            assert(dl[0] != 45);
            assert(dl != seq![45u8, 49u8]);
            let e = dl.len() + 3 as int;
            let n = b.len() as int;
            assert(dec_val(dl) == n);
            assert(e + n + 2 <= s.len());
            assert(s[e + n] == 13);
            assert(s[e + n + 1] == 10);
            assert(s.subrange(e, e + n) =~= b);
            assert(e + n + 2 == encode_spec(v).len());
        },
        RespV::BulkNil => {
            assert(s =~= seq![36u8] + seq![45u8, 49u8] + crlf() + tail);
            lemma_line_concat(36u8, seq![45u8, 49u8], tail);
            assert(s[0] == 36);
            assert(s.subrange(1, 3) =~= seq![45u8, 49u8]);
        },
        RespV::Arr(elems) => {
            let dl = dec_digits(elems.len());
            lemma_dec_digits(elems.len());
            let body = encode_elems(elems);
            assert(s =~= seq![42u8] + dl + crlf() + (body + tail));
            lemma_line_concat(42u8, dl, body + tail);
            assert(s[0] == 42);
            assert(dl[0] != 45);
            assert(dl != seq![45u8, 49u8]);
            let e = dl.len() + 3 as int;
            assert(dec_val(dl) == elems.len());
            assert(3 <= e <= s.len());
            assert(s.subrange(e, s.len() as int) =~= body + tail);
            lemma_decode_list_encode(elems, tail);
            assert(e + body.len() == encode_spec(v).len());
        },
        RespV::ArrNil => {
            assert(s =~= seq![42u8] + seq![45u8, 49u8] + crlf() + tail);
            lemma_line_concat(42u8, seq![45u8, 49u8], tail);
            assert(s[0] == 42);
        },
    }
}

/// Round trip for a run of elements, in order.
pub proof fn lemma_decode_list_encode(elems: Seq<RespV>, tail: Seq<u8>)
    requires
        forall|k: int| 0 <= k < elems.len() ==> wf_resp(#[trigger] elems[k]),
    ensures
        decode_list(encode_elems(elems) + tail, elems.len() as int) == ListStep::Elems(
            elems,
            encode_elems(elems).len() as int,
        ),
    decreases elems, 1int,
{
    let s = encode_elems(elems) + tail;
    if elems.len() == 0 {
        assert(encode_elems(elems) =~= Seq::<u8>::empty());
        assert(decode_list(s, 0) == ListStep::Elems(Seq::<RespV>::empty(), 0));
        assert(elems =~= Seq::<RespV>::empty());
    } else {
        let v = elems.first();
        let rest = elems.drop_first();
        let ev = encode_spec(v);
        let erest = encode_elems(rest);
        assert(encode_elems(elems) == ev + erest);
        assert(s =~= ev + (erest + tail));
        lemma_decode_encode(v, erest + tail);
        lemma_encode_min_len(v);
        let c = ev.len() as int;
        assert(decode0(s) == DecodeStep::Frame(v, c));
        assert(1 <= c <= s.len());
        assert(s.subrange(c, s.len() as int) =~= erest + tail);
        lemma_decode_list_encode(rest, tail);
        assert(seq![v] + rest =~= elems);
        assert(c + erest.len() == encode_elems(elems).len());
    }
}

/// The bytes of `b` from `pos` to the end.
pub open spec fn suffix(b: Seq<u8>, pos: int) -> Seq<u8> {
    b.subrange(pos, b.len() as int)
}

/// Digit runs are nonnegative, and no shorter run is worth more.
proof fn lemma_dec_val_mono(b: Seq<u8>, m: int)
    requires
        is_digits(b),
        0 <= m <= b.len(),
    ensures
        dec_val(b) >= dec_val(b.take(m)) >= 0,
    decreases b.len(),
{
    if b.len() == 0 {
    } else {
        assert(is_digits(b.drop_last())) by {
            assert(forall|k: int| 0 <= k < b.len() - 1 ==> b.drop_last()[k] == b[k]);
        }
        if m == b.len() {
            assert(b.take(m) =~= b);
            lemma_dec_val_mono(b.drop_last(), b.len() - 1);
            assert(b.drop_last().take(b.len() - 1) =~= b.drop_last());
        } else {
            lemma_dec_val_mono(b.drop_last(), m);
            assert(b.drop_last().take(m) =~= b.take(m));
            assert(dec_val(b) == dec_val(b.drop_last()) * 10 + (b.last() - 48));
        }
    }
}

/// What one attempt to read a frame off a buffer gives: a complete owned
/// value and the index just past it, a request for more bytes, or a
/// protocol violation that the connection does not recover from.
#[derive(Debug, PartialEq, Eq)]
pub enum DecodeResult {
    Frame(Resp, usize),
    Incomplete,
    InvalidProtocol,
}

fn find_mark_exec(buf: &Vec<u8>, from: usize) -> (j: usize)
    requires
        from <= buf.len(),
    ensures
        from <= j <= buf.len(),
        j < buf.len() ==> (buf@[j as int] == 13 || buf@[j as int] == 10),
        forall|k: int| from <= k < j ==> buf@[k] != 13 && buf@[k] != 10,
{
    let mut j: usize = from;
    while j < buf.len() && buf[j] != 13 && buf[j] != 10
        invariant
            from <= j <= buf.len(),
            forall|k: int| from <= k < j ==> buf@[k] != 13 && buf@[k] != 10,
        decreases buf.len() - j,
    {
        j = j + 1;
    }
    j
}

pub(crate) fn check_canon_digits(buf: &Vec<u8>, lo: usize, hi: usize) -> (ok: bool)
    requires
        lo <= hi <= buf.len(),
    ensures
        ok == is_canon_digits(buf@.subrange(lo as int, hi as int)),
{
    let ghost b = buf@.subrange(lo as int, hi as int);
    if lo == hi {
        return false;
    }
    if hi - lo > 1 && buf[lo] == 48 {
        assert(b[0] == 48);
        return false;
    }
    let mut k: usize = lo;
    while k < hi
        invariant
            lo <= k <= hi <= buf.len(),
            b == buf@.subrange(lo as int, hi as int),
            forall|t: int| 0 <= t < k - lo ==> 48 <= #[trigger] b[t] <= 57,
        decreases hi - k,
    {
        let c = buf[k];
        if c < 48 || c > 57 {
            assert(b[k - lo] == c);
            assert(!is_digits(b));
            return false;
        }
        assert(b[k - lo] == c);
        k = k + 1;
    }
    assert(is_digits(b));
    true
}

pub(crate) fn parse_capped(buf: &Vec<u8>, lo: usize, hi: usize, cap: u64) -> (v: Option<u64>)
    requires
        lo <= hi <= buf.len(),
        is_canon_digits(buf@.subrange(lo as int, hi as int)),
    ensures
        ({
            let b = buf@.subrange(lo as int, hi as int);
            match v {
                Some(x) => x == dec_val(b) && x <= cap,
                None => dec_val(b) > cap,
            }
        }),
{
    let ghost b = buf@.subrange(lo as int, hi as int);
    let mut acc: u128 = 0;
    let mut k: usize = lo;
    while k < hi
        invariant
            lo <= k <= hi <= buf.len(),
            b == buf@.subrange(lo as int, hi as int),
            is_canon_digits(b),
            acc == dec_val(b.take(k - lo)),
            acc <= cap,
        decreases hi - k,
    {
        let d = buf[k];
        assert(b[k - lo] == d);
        assert(48 <= d <= 57);
        let next: u128 = acc * 10 + ((d - 48) as u128);
        proof {
            assert(b.take(k - lo + 1).drop_last() =~= b.take(k - lo));
            assert(b.take(k - lo + 1).last() == d);
            assert(dec_val(b.take(k - lo + 1)) == dec_val(b.take(k - lo)) * 10 + (d - 48));
        }
        if next > cap as u128 {
            proof {
                lemma_dec_val_mono(b, k - lo + 1);
            }
            return None;
        }
        acc = next;
        k = k + 1;
    }
    assert(b.take(hi - lo) =~= b);
    Some(acc as u64)
}

pub(crate) fn bytes_range(buf: &Vec<u8>, lo: usize, hi: usize) -> (out: Vec<u8>)
    requires
        lo <= hi <= buf.len(),
    ensures
        out@ == buf@.subrange(lo as int, hi as int),
{
    let mut out: Vec<u8> = Vec::new();
    let mut k: usize = lo;
    while k < hi
        invariant
            lo <= k <= hi <= buf.len(),
            out@ == buf@.subrange(lo as int, k as int),
        decreases hi - k,
    {
        out.push(buf[k]);
        assert(out@ =~= buf@.subrange(lo as int, k + 1));
        k = k + 1;
    }
    out
}

enum LineRes {
    Line(usize, usize),
    Incomplete,
    Invalid,
}

fn take_line(buf: &Vec<u8>, pos: usize) -> (r: LineRes)
    requires
        pos < buf.len(),
    ensures
        ({
            let s = suffix(buf@, pos as int);
            match r {
                LineRes::Line(j, e) => pos < j && j + 2 == e && e <= buf.len() && line_at(s)
                    == LineStep::Line(buf@.subrange(pos + 1, j as int), e - pos),
                LineRes::Incomplete => line_at(s) == LineStep::Incomplete,
                LineRes::Invalid => line_at(s) == LineStep::Invalid,
            }
        }),
{
    let ghost s = suffix(buf@, pos as int);
    proof {
        assert(s.len() == buf@.len() - pos);
        assert(forall|k: int| 0 <= k < s.len() ==> s[k] == buf@[pos + k]);
    }
    let j = find_mark_exec(buf, pos + 1);
    proof {
        if j < buf.len() {
            lemma_find_mark_exact(s, 1, j - pos);
        } else {
            lemma_find_mark(s, 1);
            assert(find_mark(s, 1) == s.len());
        }
    }
    if j >= buf.len() {
        return LineRes::Incomplete;
    }
    if buf[j] == 10 {
        return LineRes::Invalid;
    }
    if j + 1 >= buf.len() {
        return LineRes::Incomplete;
    }
    if buf[j + 1] != 10 {
        return LineRes::Invalid;
    }
    proof {
        assert(s.subrange(1, j - pos) =~= buf@.subrange(pos + 1, j as int));
    }
    LineRes::Line(j, j + 2)
}

/// Reads one frame from `buf` starting at `pos`: the decoded value and the
/// index just past its last byte, a request for more bytes, or a protocol
/// violation.  The result is exactly what the specification decoder says of
/// the bytes from `pos` on, so a partial frame can be retried after more
/// bytes arrive without consuming anything twice.
#[verifier::loop_isolation(false)]
#[verifier::rlimit(60)]
pub fn decode_resp(buf: &Vec<u8>, pos: usize) -> (r: DecodeResult)
    requires
        pos <= buf.len(),
    ensures
        ({
            let s = suffix(buf@, pos as int);
            match r {
                DecodeResult::Frame(v, end) => pos < end <= buf.len() && decode0(s)
                    == DecodeStep::Frame(v@, end - pos),
                DecodeResult::Incomplete => decode0(s) == DecodeStep::Incomplete,
                DecodeResult::InvalidProtocol => decode0(s) == DecodeStep::Invalid,
            }
        }),
    decreases buf.len() - pos,
{
    let ghost s = suffix(buf@, pos as int);
    proof {
        assert(s.len() == buf@.len() - pos);
        assert(forall|k: int| 0 <= k < s.len() ==> s[k] == buf@[pos + k]);
    }
    if pos == buf.len() {
        return DecodeResult::Incomplete;
    }
    let tag = buf[pos];
    if tag == 43 || tag == 45 {
        match take_line(buf, pos) {
            LineRes::Line(j, e) => {
                let content = bytes_range(buf, pos + 1, j);
                if tag == 43 {
                    DecodeResult::Frame(Resp::Simple(content), e)
                } else {
                    DecodeResult::Frame(Resp::Error(content), e)
                }
            },
            LineRes::Incomplete => DecodeResult::Incomplete,
            LineRes::Invalid => DecodeResult::InvalidProtocol,
        }
    } else if tag == 58 {
        match take_line(buf, pos) {
            LineRes::Line(j, e) => {
                let ghost b = buf@.subrange(pos + 1, j as int);
                let lo = pos + 1;
                if j > lo && buf[lo] == 45 {
                    proof {
                        assert(b[0] == 45);
                        assert(b.drop_first() =~= buf@.subrange(lo + 1, j as int));
                    }
                    if !check_canon_digits(buf, lo + 1, j) {
                        return DecodeResult::InvalidProtocol;
                    }
                    match parse_capped(buf, lo + 1, j, 0x7fff_ffff_ffff_ffff) {
                        Some(mag) => {
                            if mag == 0 {
                                DecodeResult::InvalidProtocol
                            } else {
                                DecodeResult::Frame(Resp::Integer(-(mag as i64)), e)
                            }
                        },
                        None => DecodeResult::InvalidProtocol,
                    }
                } else {
                    proof {
                        assert(b.len() > 0 ==> b[0] == buf@[lo as int]);
                    }
                    if !check_canon_digits(buf, lo, j) {
                        return DecodeResult::InvalidProtocol;
                    }
                    match parse_capped(buf, lo, j, 0x7fff_ffff_ffff_ffff) {
                        Some(x) => DecodeResult::Frame(Resp::Integer(x as i64), e),
                        None => DecodeResult::InvalidProtocol,
                    }
                }
            },
            LineRes::Incomplete => DecodeResult::Incomplete,
            LineRes::Invalid => DecodeResult::InvalidProtocol,
        }
    } else if tag == 36 {
        match take_line(buf, pos) {
            LineRes::Line(j, e) => {
                let ghost b = buf@.subrange(pos + 1, j as int);
                let lo = pos + 1;
                if j - lo == 2 && buf[lo] == 45 && buf[lo + 1] == 49 {
                    proof {
                        assert(b =~= seq![45u8, 49u8]);
                    }
                    return DecodeResult::Frame(Resp::Bulk(BulkStr::Nil), e);
                }
                proof {
                    assert(b != seq![45u8, 49u8]);
                }
                if !check_canon_digits(buf, lo, j) {
                    return DecodeResult::InvalidProtocol;
                }
                match parse_capped(buf, lo, j, 0xffff_ffff) {
                    Some(n) => {
                        let remaining = buf.len() - e;
                        if remaining < 2 || n > (remaining - 2) as u64 {
                            return DecodeResult::Incomplete;
                        }
                        let nn = n as usize;
                        if buf[e + nn] != 13 || buf[e + nn + 1] != 10 {
                            return DecodeResult::InvalidProtocol;
                        }
                        let payload = bytes_range(buf, e, e + nn);
                        proof {
                            assert(s.subrange(e - pos, e - pos + n) =~= buf@.subrange(
                                e as int,
                                e + n,
                            ));
                        }
                        DecodeResult::Frame(Resp::Bulk(BulkStr::Str(payload)), e + nn + 2)
                    },
                    None => DecodeResult::InvalidProtocol,
                }
            },
            LineRes::Incomplete => DecodeResult::Incomplete,
            LineRes::Invalid => DecodeResult::InvalidProtocol,
        }
    } else if tag == 42 {
        match take_line(buf, pos) {
            LineRes::Line(j, e) => {
                let ghost b = buf@.subrange(pos + 1, j as int);
                let lo = pos + 1;
                if j - lo == 2 && buf[lo] == 45 && buf[lo + 1] == 49 {
                    proof {
                        assert(b =~= seq![45u8, 49u8]);
                    }
                    return DecodeResult::Frame(Resp::NilArray, e);
                }
                proof {
                    assert(b != seq![45u8, 49u8]);
                }
                if !check_canon_digits(buf, lo, j) {
                    return DecodeResult::InvalidProtocol;
                }
                match parse_capped(buf, lo, j, 0xffff_ffff) {
                    Some(n) => {
                        let ghost s0 = suffix(buf@, e as int);
                        proof {
                            assert(s.subrange(e - pos, s.len() as int) =~= s0);
                        }
                        let mut elems: Vec<Resp> = Vec::new();
                        let mut cur: usize = e;
                        let mut left: u64 = n;
                        while left > 0
                            invariant
                                e <= cur <= buf.len(),
                                left <= n,
                                ({
                                    let sc = suffix(buf@, cur as int);
                                    match decode_list(sc, left as int) {
                                        ListStep::Elems(vs, c) => decode_list(s0, n as int)
                                            == ListStep::Elems(
                                            resp_views(elems@) + vs,
                                            cur - e + c,
                                        ),
                                        ListStep::Incomplete => decode_list(s0, n as int)
                                            == ListStep::Incomplete,
                                        ListStep::Invalid => decode_list(s0, n as int)
                                            == ListStep::Invalid,
                                    }
                                }),
                            decreases left,
                        {
                            let ghost sc = suffix(buf@, cur as int);
                            match decode_resp(buf, cur) {
                                DecodeResult::Frame(v, end) => {
                                    proof {
                                        assert(sc.subrange(end - cur, sc.len() as int) =~= suffix(
                                            buf@,
                                            end as int,
                                        ));
                                        assert(resp_views(elems@.push(v)) =~= resp_views(elems@)
                                            + seq![v@]);
                                    }
                                    let ghost prev = elems@;
                                    elems.push(v);
                                    proof {
                                        let snext = suffix(buf@, end as int);
                                        match decode_list(snext, left - 1) {
                                            ListStep::Elems(vs, c) => {
                                                assert(seq![v@] + vs =~= resp_views(
                                                    prev.push(v),
                                                ).skip(prev.len() as int) + vs);
                                                assert(resp_views(prev) + (seq![v@] + vs)
                                                    =~= resp_views(prev.push(v)) + vs);
                                            },
                                            _ => {
                                            },
                                        }
                                    }
                                    cur = end;
                                    left = left - 1;
                                },
                                DecodeResult::Incomplete => {
                                    return DecodeResult::Incomplete;
                                },
                                DecodeResult::InvalidProtocol => {
                                    return DecodeResult::InvalidProtocol;
                                },
                            }
                        }
                        proof {
                            assert(decode_list(suffix(buf@, cur as int), 0)
                                == ListStep::Elems(Seq::<RespV>::empty(), 0));
                            assert(resp_views(elems@) + Seq::<RespV>::empty() =~= resp_views(
                                elems@,
                            ));
                        }
                        DecodeResult::Frame(Resp::Arr(elems), cur)
                    },
                    None => DecodeResult::InvalidProtocol,
                }
            },
            LineRes::Incomplete => DecodeResult::Incomplete,
            LineRes::Invalid => DecodeResult::InvalidProtocol,
        }
    } else {
        DecodeResult::InvalidProtocol
    }
}

} // verus!
