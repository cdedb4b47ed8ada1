use vstd::prelude::*;

verus! {

broadcast use vstd::std_specs::vec::group_vec_axioms, vstd::seq::group_seq_axioms;

/// Abstract form of a wire value: every payload is a byte sequence, every
/// array a sequence of abstract values.  Contracts throughout the crate are
/// stated over this form, so that the owned and the slice-backed
/// representations of the same value are equal where their contents are.
pub enum RespV {
    Simple(Seq<u8>),
    Error(Seq<u8>),
    Integer(int),
    Bulk(Seq<u8>),
    BulkNil,
    Arr(Seq<RespV>),
    ArrNil,
}

/// A bulk-string payload: present bytes, or the nil bulk string.
#[derive(Debug, PartialEq, Eq)]
pub enum BulkStr {
    Str(Vec<u8>),
    Nil,
}

/// A wire value with owned payloads: safe to keep beyond the read buffer
/// that produced it, and to hand across a queue or task boundary.  The array
/// variant holds its elements directly; `NilArray` is the nil array frame.
#[derive(Debug, PartialEq, Eq)]
pub enum Resp {
    Simple(Vec<u8>),
    Error(Vec<u8>),
    Integer(i64),
    Bulk(BulkStr),
    Arr(Vec<Resp>),
    NilArray,
}

/// Abstract values of a run of owned values, in order.
pub open spec fn resp_views(elems: Seq<Resp>) -> Seq<RespV>
    decreases elems,
{
    Seq::new(
        elems.len(),
        |i: int|
            if 0 <= i < elems.len() {
                elems[i]@
            } else {
                RespV::ArrNil
            },
    )
}

impl View for Resp {
    type V = RespV;

    open spec fn view(&self) -> RespV
        decreases self,
    {
        match self {
            Resp::Simple(s) => RespV::Simple(s@),
            Resp::Error(s) => RespV::Error(s@),
            Resp::Integer(i) => RespV::Integer(*i as int),
            Resp::Bulk(BulkStr::Str(s)) => RespV::Bulk(s@),
            Resp::Bulk(BulkStr::Nil) => RespV::BulkNil,
            Resp::Arr(elems) => RespV::Arr(resp_views(elems@)),
            Resp::NilArray => RespV::ArrNil,
        }
    }
}

/// A value is well formed when it can appear on the wire: line payloads
/// carry no line terminator bytes, integers fit the signed 64-bit range the
/// codec accepts, and bulk and array sizes fit the 32-bit protocol limit.
pub open spec fn wf_resp(v: RespV) -> bool
    decreases v,
{
    match v {
        RespV::Simple(s) => forall|i: int| 0 <= i < s.len() ==> s[i] != 13 && s[i] != 10,
        RespV::Error(s) => forall|i: int| 0 <= i < s.len() ==> s[i] != 13 && s[i] != 10,
        RespV::Integer(i) => -0x7fff_ffff_ffff_ffff <= i <= 0x7fff_ffff_ffff_ffff,
        RespV::Bulk(s) => s.len() < 0x1_0000_0000,
        RespV::BulkNil => true,
        RespV::Arr(elems) => elems.len() < 0x1_0000_0000 && (forall|i: int|
            0 <= i < elems.len() ==> wf_resp(#[trigger] elems[i])),
        RespV::ArrNil => true,
    }
}


/// A scalar payload as a slice descriptor: `len` bytes of a shared read
/// buffer starting at `start`.
pub struct SliceRange {
    pub start: usize,
    pub len: usize,
}

/// A wire value whose payloads are slice descriptors into the read buffer
/// that produced it: nothing is copied while the value stays with that
/// buffer.  Such a value is only meaningful while the buffer is alive; to
/// keep it longer, or to hand it across a queue or task boundary, promote
/// it first.
pub enum RespIndex {
    Simple(SliceRange),
    Error(SliceRange),
    Integer(i64),
    Bulk(SliceRange),
    NilBulk,
    Arr(Vec<RespIndex>),
    NilArray,
}

pub open spec fn range_wf(r: SliceRange, n: nat) -> bool {
    r.start + r.len <= n
}

/// Every descriptor of the value lies within a buffer of length `n`.
pub open spec fn index_wf(r: RespIndex, n: nat) -> bool
    decreases r,
{
    match r {
        RespIndex::Simple(s) => range_wf(s, n),
        RespIndex::Error(s) => range_wf(s, n),
        RespIndex::Integer(_) => true,
        RespIndex::Bulk(s) => range_wf(s, n),
        RespIndex::NilBulk => true,
        RespIndex::Arr(elems) => indexes_wf(elems@, n),
        RespIndex::NilArray => true,
    }
}

pub open spec fn indexes_wf(rs: Seq<RespIndex>, n: nat) -> bool
    decreases rs,
{
    rs.len() == 0 || (index_wf(rs.first(), n) && indexes_wf(rs.drop_first(), n))
}

/// The value a slice-backed frame stands for, read against its buffer.
/// It is the common ground of the two representations: a slice-backed
/// value and its promotion are equal here, which is all that equality of
/// wire values means.
pub open spec fn index_view(r: RespIndex, buf: Seq<u8>) -> RespV
    decreases r,
{
    match r {
        RespIndex::Simple(s) => RespV::Simple(buf.subrange(s.start as int, s.start + s.len)),
        RespIndex::Error(s) => RespV::Error(buf.subrange(s.start as int, s.start + s.len)),
        RespIndex::Integer(i) => RespV::Integer(i as int),
        RespIndex::Bulk(s) => RespV::Bulk(buf.subrange(s.start as int, s.start + s.len)),
        RespIndex::NilBulk => RespV::BulkNil,
        RespIndex::Arr(elems) => RespV::Arr(index_views(elems@, buf)),
        RespIndex::NilArray => RespV::ArrNil,
    }
}

pub open spec fn index_views(rs: Seq<RespIndex>, buf: Seq<u8>) -> Seq<RespV>
    decreases rs,
{
    if rs.len() == 0 {
        Seq::empty()
    } else {
        seq![index_view(rs.first(), buf)] + index_views(rs.drop_first(), buf)
    }
}

proof fn lemma_index_views_index(rs: Seq<RespIndex>, buf: Seq<u8>)
    ensures
        index_views(rs, buf).len() == rs.len(),
        forall|j: int|
            0 <= j < rs.len() ==> index_views(rs, buf)[j] == index_view(#[trigger] rs[j], buf),
    decreases rs,
{
    if rs.len() > 0 {
        lemma_index_views_index(rs.drop_first(), buf);
        assert forall|j: int| 0 <= j < rs.len() implies index_views(rs, buf)[j] == index_view(
            #[trigger] rs[j],
            buf,
        ) by {
            if j == 0 {
                assert(rs.first() == rs[0]);
            } else {
                assert(rs.drop_first()[j - 1] == rs[j]);
                assert(index_views(rs, buf)[j] == index_views(rs.drop_first(), buf)[j - 1]);
            }
        }
    }
}

proof fn lemma_indexes_wf_index(rs: Seq<RespIndex>, n: nat)
    requires
        indexes_wf(rs, n),
    ensures
        forall|j: int| 0 <= j < rs.len() ==> index_wf(#[trigger] rs[j], n),
    decreases rs,
{
    if rs.len() > 0 {
        lemma_indexes_wf_index(rs.drop_first(), n);
        assert forall|j: int| 0 <= j < rs.len() implies index_wf(#[trigger] rs[j], n) by {
            if j == 0 {
                assert(rs.first() == rs[0]);
            } else {
                assert(rs.drop_first()[j - 1] == rs[j]);
            }
        }
    }
}

/// Rewrites every slice descriptor of the tree into an owned buffer: the
/// one conversion a slice-backed value must pass through before it leaves
/// its read buffer.  Total for every value whose descriptors lie within
/// the buffer, and the result reads as the very value the slice-backed
/// tree stood for.  On the owned representation a promotion is the
/// identity, so promoting twice changes nothing further.
#[verifier::loop_isolation(false)]
pub fn promote(r: &RespIndex, buf: &Vec<u8>) -> (out: Resp)
    requires
        index_wf(*r, buf@.len()),
    ensures
        out@ == index_view(*r, buf@),
    decreases r,
{
    match r {
        RespIndex::Simple(s) => {
            let n = buf.len();
            proof {
                assert(s.start + s.len <= n);
            }
            Resp::Simple(crate::decode::bytes_range(buf, s.start, s.start + s.len))
        },
        RespIndex::Error(s) => {
            let n = buf.len();
            proof {
                assert(s.start + s.len <= n);
            }
            Resp::Error(crate::decode::bytes_range(buf, s.start, s.start + s.len))
        },
        RespIndex::Integer(i) => Resp::Integer(*i),
        RespIndex::Bulk(s) => {
            let n = buf.len();
            proof {
                assert(s.start + s.len <= n);
            }
            Resp::Bulk(BulkStr::Str(crate::decode::bytes_range(buf, s.start, s.start + s.len)))
        },
        RespIndex::NilBulk => Resp::Bulk(BulkStr::Nil),
        RespIndex::Arr(elems) => {
            proof {
                lemma_indexes_wf_index(elems@, buf@.len());
                lemma_index_views_index(elems@, buf@);
            }
            let mut out_elems: Vec<Resp> = Vec::new();
            let mut i: usize = 0;
            while i < elems.len()
                invariant
                    i <= elems@.len(),
                    out_elems@.len() == i,
                    forall|j: int|
                        0 <= j < i ==> (#[trigger] out_elems@[j])@ == index_view(elems@[j], buf@),
                decreases elems@.len() - i,
            {
                proof {
                    assert(decreases_to!(*r => (*r)->Arr_0));
                    assert(decreases_to!((*r)->Arr_0 => ((*r)->Arr_0)@));
                    assert(decreases_to!(((*r)->Arr_0)@ => ((*r)->Arr_0)@[i as int]));
                    assert(decreases_to!(*r => elems@[i as int]));
                }
                let e = promote(&elems[i], buf);
                out_elems.push(e);
                i = i + 1;
            }
            proof {
                assert(resp_views(out_elems@) =~= index_views(elems@, buf@));
            }
            Resp::Arr(out_elems)
        },
        RespIndex::NilArray => Resp::NilArray,
    }
}

} // verus!
