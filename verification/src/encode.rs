use vstd::prelude::*;
use crate::resp::{BulkStr, Resp, RespV};

verus! {

broadcast use vstd::std_specs::vec::group_vec_axioms, vstd::seq::group_seq_axioms;

/// The line terminator every frame line ends with.
pub open spec fn crlf() -> Seq<u8> {
    seq![13u8, 10u8]
}

/// Decimal digits of `n`, most significant first, with no leading zero
/// except for `n == 0` itself.
pub open spec fn dec_digits(n: nat) -> Seq<u8>
    decreases n,
{
    if n < 10 {
        seq![(48 + n) as u8]
    } else {
        dec_digits(n / 10).push((48 + n % 10) as u8)
    }
}

/// Decimal text of a signed value: a minus sign before the digits of the
/// magnitude when negative.
pub open spec fn int_bytes(i: int) -> Seq<u8> {
    if i < 0 {
        seq![45u8] + dec_digits((-i) as nat)
    } else {
        dec_digits(i as nat)
    }
}

/// The exact wire bytes of a value: `+text`, `-text`, `:int`, `$len` with a
/// payload, or `*count` with the elements in order; nil bulk strings and nil
/// arrays carry length `-1`.
pub open spec fn encode_spec(v: RespV) -> Seq<u8>
    decreases v,
{
    match v {
        RespV::Simple(s) => seq![43u8] + s + crlf(),
        RespV::Error(s) => seq![45u8] + s + crlf(),
        RespV::Integer(i) => seq![58u8] + int_bytes(i) + crlf(),
        RespV::Bulk(s) => seq![36u8] + dec_digits(s.len()) + crlf() + s + crlf(),
        RespV::BulkNil => seq![36u8, 45u8, 49u8] + crlf(),
        RespV::Arr(elems) => seq![42u8] + dec_digits(elems.len()) + crlf() + encode_elems(elems),
        RespV::ArrNil => seq![42u8, 45u8, 49u8] + crlf(),
    }
}

/// Wire bytes of a run of values, one after the other.
pub open spec fn encode_elems(elems: Seq<RespV>) -> Seq<u8>
    decreases elems,
{
    if elems.len() == 0 {
        Seq::<u8>::empty()
    } else {
        encode_spec(elems.first()) + encode_elems(elems.drop_first())
    }
}

/// Splitting a run of values splits its encoding at the same point.
pub proof fn lemma_encode_elems_app(a: Seq<RespV>, b: Seq<RespV>)
    ensures
        encode_elems(a + b) == encode_elems(a) + encode_elems(b),
    decreases a,
{
    if a.len() == 0 {
        assert(a + b =~= b);
        assert(encode_elems(a) + encode_elems(b) =~= encode_elems(b));
    } else {
        assert((a + b).drop_first() =~= a.drop_first() + b);
        lemma_encode_elems_app(a.drop_first(), b);
        assert(encode_elems(a + b) =~= encode_elems(a) + encode_elems(b));
    }
}

fn push_bytes(buf: &mut Vec<u8>, s: &Vec<u8>)
    ensures
        final(buf)@ == old(buf)@ + s@,
{
    let mut i: usize = 0;
    while i < s.len()
        invariant
            i <= s.len(),
            buf@ == old(buf)@ + s@.subrange(0, i as int),
        decreases s.len() - i,
    {
        buf.push(s[i]);
        assert(buf@ =~= old(buf)@ + s@.subrange(0, i + 1));
        i = i + 1;
    }
    assert(buf@ =~= old(buf)@ + s@);
}

fn push_crlf(buf: &mut Vec<u8>)
    ensures
        final(buf)@ == old(buf)@ + crlf(),
{
    buf.push(13u8);
    buf.push(10u8);
    assert(buf@ =~= old(buf)@ + crlf());
}

fn push_u64(buf: &mut Vec<u8>, n: u64)
    ensures
        final(buf)@ == old(buf)@ + dec_digits(n as nat),
    decreases n,
{
    if n < 10 {
        buf.push((48 + n) as u8);
        assert(buf@ =~= old(buf)@ + dec_digits(n as nat));
    } else {
        push_u64(buf, n / 10);
        buf.push((48 + n % 10) as u8);
        assert(buf@ =~= old(buf)@ + dec_digits(n as nat));
    }
}

fn push_i64(buf: &mut Vec<u8>, i: i64)
    ensures
        final(buf)@ == old(buf)@ + int_bytes(i as int),
{
    if i >= 0 {
        push_u64(buf, i as u64);
    } else {
        buf.push(45u8);
        let mag: u64 = (-(i as i128)) as u64;
        push_u64(buf, mag);
        assert(buf@ =~= old(buf)@ + int_bytes(i as int));
    }
}

/// Appends the exact wire bytes of `resp` to `buf`.  Never fails, and never
/// writes anything but the encoding of `resp`.
#[verifier::loop_isolation(false)]
pub fn resp_to_buf(buf: &mut Vec<u8>, resp: &Resp)
    ensures
        final(buf)@ == old(buf)@ + encode_spec(resp@),
    decreases resp,
{
    match resp {
        Resp::Simple(s) => {
            buf.push(43u8);
            push_bytes(buf, s);
            push_crlf(buf);
            assert(buf@ =~= old(buf)@ + encode_spec(resp@));
        },
        Resp::Error(s) => {
            buf.push(45u8);
            push_bytes(buf, s);
            push_crlf(buf);
            assert(buf@ =~= old(buf)@ + encode_spec(resp@));
        },
        Resp::Integer(i) => {
            buf.push(58u8);
            push_i64(buf, *i);
            push_crlf(buf);
            assert(buf@ =~= old(buf)@ + encode_spec(resp@));
        },
        Resp::Bulk(BulkStr::Str(s)) => {
            buf.push(36u8);
            push_u64(buf, s.len() as u64);
            push_crlf(buf);
            push_bytes(buf, s);
            push_crlf(buf);
            assert(buf@ =~= old(buf)@ + encode_spec(resp@));
        },
        Resp::Bulk(BulkStr::Nil) => {
            buf.push(36u8);
            buf.push(45u8);
            buf.push(49u8);
            push_crlf(buf);
            assert(buf@ =~= old(buf)@ + encode_spec(resp@));
        },
        Resp::Arr(elems) => {
            buf.push(42u8);
            push_u64(buf, elems.len() as u64);
            push_crlf(buf);
            let ghost vs = resp@->Arr_0;
            let ghost header = buf@;
            let mut i: usize = 0;
            while i < elems.len()
                invariant
                    i <= elems.len(),
                    vs == resp@->Arr_0,
                    vs.len() == elems.len(),
                    forall|j: int| 0 <= j < elems.len() ==> vs[j] == elems@[j]@,
                    buf@ == header + encode_elems(vs.take(i as int)),
                decreases elems.len() - i,
            {
                proof {
                    assert(decreases_to!(*resp => (*resp)->Arr_0));
                    assert(decreases_to!((*resp)->Arr_0 => ((*resp)->Arr_0)@));
                    assert(decreases_to!(((*resp)->Arr_0)@ => ((*resp)->Arr_0)@[i as int]));
                    assert(decreases_to!(*resp => elems@[i as int]));
                }
                resp_to_buf(buf, &elems[i]);
                proof {
                    reveal_with_fuel(encode_elems, 3);
                    assert(vs.take(i + 1) =~= vs.take(i as int) + seq![vs[i as int]]);
                    lemma_encode_elems_app(vs.take(i as int), seq![vs[i as int]]);
                    assert(seq![vs[i as int]].drop_first() =~= Seq::<RespV>::empty());
                    assert(encode_elems(seq![vs[i as int]]) =~= encode_spec(vs[i as int])
                        + Seq::<u8>::empty());
                    assert(encode_spec(vs[i as int]) + Seq::<u8>::empty() =~= encode_spec(
                        vs[i as int],
                    ));
                    assert(buf@ =~= header + encode_elems(vs.take(i + 1)));
                }
                i = i + 1;
            }
            proof {
                assert(vs.take(vs.len() as int) =~= vs);
                assert(buf@ =~= old(buf)@ + encode_spec(resp@));
            }
        },
        Resp::NilArray => {
            buf.push(42u8);
            buf.push(45u8);
            buf.push(49u8);
            push_crlf(buf);
            assert(buf@ =~= old(buf)@ + encode_spec(resp@));
        },
    }
}

/// The wire bytes of `resp`, in a fresh buffer.
pub fn encode_resp(resp: &Resp) -> (out: Vec<u8>)
    ensures
        out@ == encode_spec(resp@),
{
    let mut buf: Vec<u8> = Vec::new();
    resp_to_buf(&mut buf, resp);
    buf
}

} // verus!
