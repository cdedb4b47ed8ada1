use vstd::prelude::*;
use crate::resp::{BulkStr, Resp, RespV};
use crate::decode::{check_canon_digits, dec_val, is_canon_digits, parse_capped};
use crate::command::{CmdReplySender, Command};

verus! {

broadcast use vstd::std_specs::vec::group_vec_axioms, vstd::seq::group_seq_axioms;

/// Why a metadata update was rejected.  A rejected update leaves the
/// previously active snapshot in place.
#[derive(Debug, PartialEq, Eq)]
pub enum MetaError {
    ParseError,
    InvalidRanges,
}

/// Why a command could not be forwarded.
#[derive(Debug, PartialEq, Eq)]
pub enum RouterError {
    ClusterNotFound,
    Backend,
}

fn bytes_eq(a: &Vec<u8>, b: &Vec<u8>) -> (r: bool)
    ensures
        r == (a@ == b@),
{
    if a.len() != b.len() {
        return false;
    }
    let mut k: usize = 0;
    while k < a.len()
        invariant
            k <= a.len(),
            a@.len() == b@.len(),
            forall|t: int| 0 <= t < k ==> a@[t] == b@[t],
        decreases a.len() - k,
    {
        if a[k] != b[k] {
            return false;
        }
        k = k + 1;
    }
    proof {
        assert(a@ =~= b@);
    }
    true
}

fn copy_bytes(src: &Vec<u8>) -> (out: Vec<u8>)
    ensures
        out@ == src@,
{
    let mut out: Vec<u8> = Vec::new();
    let mut k: usize = 0;
    while k < src.len()
        invariant
            k <= src.len(),
            out@ == src@.subrange(0, k as int),
        decreases src.len() - k,
    {
        out.push(src[k]);
        assert(out@ =~= src@.subrange(0, k + 1));
        k = k + 1;
    }
    assert(out@ =~= src@);
    out
}

/// The name of a logical keyspace: one to thirty bytes.
pub struct ClusterName {
    bytes: Vec<u8>,
}

impl View for ClusterName {
    type V = Seq<u8>;

    closed spec fn view(&self) -> Seq<u8> {
        self.bytes@
    }
}

impl ClusterName {
    /// Accepts exactly the names of one to thirty bytes.
    pub fn new(bytes: Vec<u8>) -> (r: Result<ClusterName, MetaError>)
        ensures
            r is Ok <==> 1 <= bytes@.len() <= 30,
            r is Ok ==> r->Ok_0@ == bytes@,
            r is Err ==> r == Result::<ClusterName, MetaError>::Err(MetaError::ParseError),
    {
        if bytes.len() >= 1 && bytes.len() <= 30 {
            Ok(ClusterName { bytes })
        } else {
            Err(MetaError::ParseError)
        }
    }

    pub fn duplicate(&self) -> (r: ClusterName)
        ensures
            r@ == self@,
    {
        ClusterName { bytes: copy_bytes(&self.bytes) }
    }
}

/// One slot range and its owner: the backend address that serves the slots
/// from `start` to `end`, and whether that ownership is in migration.
pub struct SlotRange {
    pub start: u16,
    pub end: u16,
    pub migrating: bool,
    pub addr: Vec<u8>,
}

/// The ranges of one cluster partition the whole slot space: they begin at
/// slot zero, each starts right after its predecessor ends, and the last
/// ends at the top slot — no gap and no overlap.
pub open spec fn valid_partition(rs: Seq<SlotRange>) -> bool {
    &&& rs.len() > 0
    &&& rs[0].start == 0
    &&& rs[rs.len() - 1].end == 16383
    &&& forall|i: int|
        0 <= i < rs.len() ==> (#[trigger] rs[i]).start <= rs[i].end && rs[i].end <= 16383
    &&& forall|i: int| 1 <= i < rs.len() ==> (#[trigger] rs[i]).start == rs[i - 1].end + 1
}

/// Decides `valid_partition` for a concrete list of ranges.
pub fn check_partition(rs: &Vec<SlotRange>) -> (ok: bool)
    ensures
        ok == valid_partition(rs@),
{
    if rs.len() == 0 {
        return false;
    }
    if rs[0].start != 0 {
        return false;
    }
    if rs[rs.len() - 1].end != 16383 {
        return false;
    }
    let mut i: usize = 0;
    while i < rs.len()
        invariant
            i <= rs@.len(),
            rs@.len() > 0,
            forall|t: int|
                0 <= t < i ==> (#[trigger] rs@[t]).start <= rs@[t].end && rs@[t].end <= 16383,
            forall|t: int| 1 <= t < i ==> (#[trigger] rs@[t]).start == rs@[t - 1].end + 1,
        decreases rs.len() - i,
    {
        if rs[i].start > rs[i].end || rs[i].end > 16383 {
            return false;
        }
        if i >= 1 && (rs[i - 1].end >= 16383 || rs[i].start != rs[i - 1].end + 1) {
            return false;
        }
        i = i + 1;
    }
    true
}

/// First index holding `b` at or after `i`, or `s.len()` when none does.
pub open spec fn find_byte(s: Seq<u8>, b: u8, i: int) -> int
    decreases s.len() - i,
{
    if i >= s.len() {
        s.len() as int
    } else if s[i] == b {
        i
    } else {
        find_byte(s, b, i + 1)
    }
}

proof fn lemma_find_byte_exact(s: Seq<u8>, b: u8, i: int, j: int)
    requires
        0 <= i <= j <= s.len(),
        j < s.len() ==> s[j] == b,
        forall|k: int| i <= k < j ==> s[k] != b,
        j == s.len() ==> forall|k: int| i <= k < s.len() ==> s[k] != b,
    ensures
        find_byte(s, b, i) == j,
    decreases j - i,
{
    if i < j {
        lemma_find_byte_exact(s, b, i + 1, j);
    }
}

/// A range token `start-end` in canonical digits, both ends in the slot
/// space.
pub open spec fn range_token_ok(b: Seq<u8>) -> bool {
    let d = find_byte(b, 45, 0);
    &&& 0 < d < b.len()
    &&& is_canon_digits(b.take(d))
    &&& is_canon_digits(b.skip(d + 1))
    &&& dec_val(b.take(d)) <= 16383
    &&& dec_val(b.skip(d + 1)) <= 16383
}

pub open spec fn range_token_start(b: Seq<u8>) -> int {
    dec_val(b.take(find_byte(b, 45, 0)))
}

pub open spec fn range_token_end(b: Seq<u8>) -> int {
    dec_val(b.skip(find_byte(b, 45, 0) + 1))
}

fn parse_range_token(tok: &Vec<u8>) -> (r: Option<(u16, u16)>)
    ensures
        (match r {
            Some(p) => range_token_ok(tok@) && p.0 == range_token_start(tok@) && p.1
                == range_token_end(tok@),
            None => !range_token_ok(tok@),
        }),
{
    let ghost b = tok@;
    let mut d: usize = 0;
    while d < tok.len() && tok[d] != 45
        invariant
            d <= tok.len(),
            forall|k: int| 0 <= k < d ==> tok@[k] != 45,
        decreases tok.len() - d,
    {
        d = d + 1;
    }
    proof {
        lemma_find_byte_exact(b, 45, 0, d as int);
    }
    if d == 0 || d >= tok.len() {
        return None;
    }
    proof {
        assert(b.take(d as int) =~= tok@.subrange(0, d as int));
        assert(b.skip(d + 1) =~= tok@.subrange(d + 1, tok@.len() as int));
    }
    if !check_canon_digits(tok, 0, d) {
        return None;
    }
    if !check_canon_digits(tok, d + 1, tok.len()) {
        return None;
    }
    let start = match parse_capped(tok, 0, d, 16383) {
        Some(v) => v,
        None => {
            return None;
        },
    };
    let end = match parse_capped(tok, d + 1, tok.len(), 16383) {
        Some(v) => v,
        None => {
            return None;
        },
    };
    Some((start as u16, end as u16))
}

/// The flags token that marks a migrating update.
pub open spec fn migrating_text() -> Seq<u8> {
    seq![77u8, 73u8, 71u8, 82u8, 65u8, 84u8, 73u8, 78u8, 71u8]
}

/// A well-formed metadata line, already split into tokens: epoch, flags,
/// cluster name, backend address, range count, then exactly that many
/// `start-end` range tokens.
pub open spec fn meta_tokens_ok(ts: Seq<Vec<u8>>) -> bool {
    &&& ts.len() >= 5
    &&& is_canon_digits(ts[0]@)
    &&& dec_val(ts[0]@) <= 0xffff_ffff_ffff_ffff
    &&& 1 <= ts[2]@.len() <= 30
    &&& ts[3]@.len() >= 1
    &&& is_canon_digits(ts[4]@)
    &&& dec_val(ts[4]@) < 0x1_0000_0000
    &&& dec_val(ts[4]@) == ts.len() - 5
    &&& forall|i: int| 5 <= i < ts.len() ==> range_token_ok((#[trigger] ts[i])@)
}

/// One parsed metadata update: the new ranges of one cluster, all owned by
/// the address the line names.
pub struct ProxyClusterMeta {
    pub epoch: u64,
    pub cluster: ClusterName,
    pub ranges: Vec<SlotRange>,
}

impl ProxyClusterMeta {
    /// Parses a tokenized metadata line.  Succeeds exactly on well-formed
    /// lines and then reproduces every field of the line; any malformed
    /// token is a parse error, and the caller's active snapshot is not
    /// touched.
    pub fn parse(tokens: &Vec<Vec<u8>>) -> (r: Result<ProxyClusterMeta, MetaError>)
        ensures
            r is Ok <==> meta_tokens_ok(tokens@),
            r is Err ==> r == Result::<ProxyClusterMeta, MetaError>::Err(MetaError::ParseError),
            r is Ok ==> ({
                let m = r->Ok_0;
                &&& m.epoch == dec_val(tokens@[0]@)
                &&& m.cluster@ == tokens@[2]@
                &&& m.ranges@.len() == tokens@.len() - 5
                &&& forall|i: int|
                    0 <= i < m.ranges@.len() ==> {
                        let b = tokens@[5 + i]@;
                        (#[trigger] m.ranges@[i]).start == range_token_start(b)
                            && m.ranges@[i].end == range_token_end(b) && m.ranges@[i].addr@
                            == tokens@[3]@ && m.ranges@[i].migrating == (tokens@[1]@
                            == migrating_text())
                    }
            }),
    {
        if tokens.len() < 5 {
            return Err(MetaError::ParseError);
        }
        if !check_canon_digits(&tokens[0], 0, tokens[0].len()) {
            return Err(MetaError::ParseError);
        }
        proof {
            assert(tokens@[0]@.subrange(0, tokens@[0]@.len() as int) =~= tokens@[0]@);
        }
        let epoch = match parse_capped(&tokens[0], 0, tokens[0].len(), 0xffff_ffff_ffff_ffff) {
            Some(v) => v,
            None => {
                return Err(MetaError::ParseError);
            },
        };
        let mig = vec![77u8, 73u8, 71u8, 82u8, 65u8, 84u8, 73u8, 78u8, 71u8];
        proof {
            assert(mig@ =~= migrating_text());
        }
        let migrating = bytes_eq(&tokens[1], &mig);
        let cluster = match ClusterName::new(copy_bytes(&tokens[2])) {
            Ok(c) => c,
            Err(_) => {
                return Err(MetaError::ParseError);
            },
        };
        if tokens[3].len() < 1 {
            return Err(MetaError::ParseError);
        }
        if !check_canon_digits(&tokens[4], 0, tokens[4].len()) {
            return Err(MetaError::ParseError);
        }
        proof {
            assert(tokens@[4]@.subrange(0, tokens@[4]@.len() as int) =~= tokens@[4]@);
        }
        let count = match parse_capped(&tokens[4], 0, tokens[4].len(), 0xffff_ffff) {
            Some(v) => v,
            None => {
                return Err(MetaError::ParseError);
            },
        };
        if tokens.len() - 5 != count as usize {
            return Err(MetaError::ParseError);
        }
        let mut ranges: Vec<SlotRange> = Vec::new();
        let mut i: usize = 5;
        while i < tokens.len()
            invariant
                5 <= i <= tokens@.len(),
                ranges@.len() == i - 5,
                migrating == (tokens@[1]@ == migrating_text()),
                forall|t: int| 5 <= t < i ==> range_token_ok((#[trigger] tokens@[t])@),
                forall|t: int|
                    0 <= t < ranges@.len() ==> {
                        let b = tokens@[5 + t]@;
                        (#[trigger] ranges@[t]).start == range_token_start(b) && ranges@[t].end
                            == range_token_end(b) && ranges@[t].addr@ == tokens@[3]@
                            && ranges@[t].migrating == (tokens@[1]@ == migrating_text())
                    },
            decreases tokens.len() - i,
        {
            match parse_range_token(&tokens[i]) {
                Some((start, end)) => {
                    ranges.push(
                        SlotRange { start, end, migrating, addr: copy_bytes(&tokens[3]) },
                    );
                },
                None => {
                    return Err(MetaError::ParseError);
                },
            }
            i = i + 1;
        }
        Ok(ProxyClusterMeta { epoch, cluster, ranges })
    }
}


/// Index of the first entry for `name`, or `-1` when the map has none.
pub open spec fn idx_of(cs: Seq<ProxyClusterMeta>, name: Seq<u8>) -> int
    decreases cs.len(),
{
    if cs.len() == 0 {
        -1
    } else if cs[0].cluster@ == name {
        0
    } else {
        let r = idx_of(cs.drop_first(), name);
        if r == -1 {
            -1
        } else {
            r + 1
        }
    }
}

proof fn lemma_idx_of_first(cs: Seq<ProxyClusterMeta>, name: Seq<u8>, j: int)
    requires
        0 <= j < cs.len(),
        cs[j].cluster@ == name,
        forall|k: int| 0 <= k < j ==> cs[k].cluster@ != name,
    ensures
        idx_of(cs, name) == j,
    decreases j,
{
    if j > 0 {
        assert(forall|k: int| 0 <= k < cs.len() - 1 ==> cs.drop_first()[k] == cs[k + 1]);
        lemma_idx_of_first(cs.drop_first(), name, j - 1);
    }
}

proof fn lemma_idx_of_none(cs: Seq<ProxyClusterMeta>, name: Seq<u8>)
    requires
        forall|k: int| 0 <= k < cs.len() ==> cs[k].cluster@ != name,
    ensures
        idx_of(cs, name) == -1,
    decreases cs.len(),
{
    if cs.len() > 0 {
        assert(forall|k: int| 0 <= k < cs.len() - 1 ==> cs.drop_first()[k] == cs[k + 1]);
        lemma_idx_of_none(cs.drop_first(), name);
    }
}

proof fn lemma_idx_of_props(cs: Seq<ProxyClusterMeta>, name: Seq<u8>)
    ensures
        -1 <= idx_of(cs, name) < cs.len(),
        idx_of(cs, name) == -1 ==> forall|k: int|
            0 <= k < cs.len() ==> (#[trigger] cs[k]).cluster@ != name,
        idx_of(cs, name) >= 0 ==> cs[idx_of(cs, name)].cluster@ == name,
    decreases cs.len(),
{
    if cs.len() > 0 {
        let rest = cs.drop_first();
        lemma_idx_of_props(rest, name);
        if cs[0].cluster@ == name {
            assert(idx_of(cs, name) == 0);
        } else {
            let r = idx_of(rest, name);
            if r == -1 {
                assert(idx_of(cs, name) == -1);
                assert forall|k: int| 0 <= k < cs.len() implies (#[trigger] cs[k]).cluster@
                    != name by {
                    if k > 0 {
                        assert(rest[k - 1] == cs[k]);
                        assert(rest[k - 1].cluster@ != name);
                    }
                }
            } else {
                assert(0 <= r < rest.len());
                assert(rest[r].cluster@ == name);
                assert(idx_of(cs, name) == r + 1);
                assert(rest[r] == cs[r + 1]);
            }
        }
    }
}

/// Appending an entry changes no existing lookup: an absent name resolves
/// to the new entry exactly when it carries that name.
proof fn lemma_idx_of_push(cs: Seq<ProxyClusterMeta>, m: ProxyClusterMeta, name: Seq<u8>)
    ensures
        idx_of(cs, name) >= 0 ==> idx_of(cs.push(m), name) == idx_of(cs, name)
            && cs.push(m)[idx_of(cs, name)] == cs[idx_of(cs, name)],
        idx_of(cs, name) == -1 && m.cluster@ != name ==> idx_of(cs.push(m), name) == -1,
        idx_of(cs, name) == -1 && m.cluster@ == name ==> idx_of(cs.push(m), name) == cs.len(),
    decreases cs.len(),
{
    lemma_idx_of_props(cs, name);
    let cs1 = cs.push(m);
    if cs.len() == 0 {
        assert(cs1[0] == m);
        assert(cs1.len() == 1);
        if m.cluster@ != name {
            assert(forall|k: int| 0 <= k < cs1.len() ==> cs1[k].cluster@ != name);
            lemma_idx_of_none(cs1, name);
        } else {
            lemma_idx_of_first(cs1, name, 0);
        }
    } else {
        lemma_idx_of_push(cs.drop_first(), m, name);
        lemma_idx_of_props(cs.drop_first(), name);
        assert(cs1.drop_first() =~= cs.drop_first().push(m));
        assert(forall|k: int| 0 <= k < cs.len() - 1 ==> cs.drop_first()[k] == cs[k + 1]);
        assert(forall|k: int| 0 <= k < cs1.len() - 1 ==> cs1.drop_first()[k] == cs1[k + 1]);
        assert(cs1[0] == cs[0]);
        if cs[0].cluster@ == name {
            assert(idx_of(cs, name) == 0 && idx_of(cs1, name) == 0);
            assert(cs1[0] == cs[0]);
        } else {
            let r = idx_of(cs.drop_first(), name);
            if r >= 0 {
                assert(idx_of(cs, name) == r + 1);
                assert(idx_of(cs.drop_first().push(m), name) == r);
                assert(idx_of(cs1, name) == r + 1);
                assert(cs.drop_first().push(m)[r] == cs.drop_first()[r]);
                assert(cs1[r + 1] == cs1.drop_first()[r]);
                assert(cs[r + 1] == cs.drop_first()[r]);
            } else {
                if m.cluster@ == name {
                    assert(idx_of(cs.drop_first().push(m), name) == cs.len() - 1);
                    assert(idx_of(cs1, name) == cs.len());
                } else {
                    assert(idx_of(cs.drop_first().push(m), name) == -1);
                    assert(idx_of(cs1, name) == -1);
                }
            }
        }
    }
}

/// Replacing the entry that carries a name changes no other lookup.
proof fn lemma_idx_of_update(cs: Seq<ProxyClusterMeta>, j: int, m: ProxyClusterMeta, name: Seq<u8>)
    requires
        0 <= j < cs.len(),
        cs[j].cluster@ == m.cluster@,
    ensures
        idx_of(cs.update(j, m), name) == idx_of(cs, name),
        idx_of(cs, name) >= 0 && idx_of(cs, name) != j ==> cs.update(j, m)[idx_of(cs, name)]
            == cs[idx_of(cs, name)],
    decreases cs.len(),
{
    lemma_idx_of_props(cs, name);
    if cs.len() > 0 {
        if j == 0 {
            assert(cs.update(j, m).drop_first() =~= cs.drop_first());
        } else {
            lemma_idx_of_update(cs.drop_first(), j - 1, m, name);
            assert(cs.update(j, m).drop_first() =~= cs.drop_first().update(j - 1, m));
        }
        assert(forall|k: int| 0 <= k < cs.len() - 1 ==> cs.drop_first()[k] == cs[k + 1]);
        let cs1 = cs.update(j, m);
        assert(forall|k: int| 0 <= k < cs1.len() - 1 ==> cs1.drop_first()[k] == cs1[k + 1]);
    }
}

/// The immutable snapshot of every cluster's ranges.  Entries carry unique
/// names and each holds a valid partition: no reader ever sees a snapshot
/// with an overlapping or missing range, because no such snapshot can be
/// installed.
pub struct MetaMap {
    clusters: Vec<ProxyClusterMeta>,
}

impl MetaMap {
    pub closed spec fn entries(&self) -> Seq<ProxyClusterMeta> {
        self.clusters@
    }

    /// The snapshot invariant: unique names, each with a full partition.
    pub open spec fn wf(&self) -> bool {
        &&& forall|i: int|
            0 <= i < self.entries().len() ==> valid_partition(
                (#[trigger] self.entries()[i]).ranges@,
            )
        &&& forall|i: int, j: int|
            0 <= i < j < self.entries().len() ==> (#[trigger] self.entries()[i]).cluster@ != (
            #[trigger] self.entries()[j]).cluster@
    }

    pub open spec fn has_cluster(&self, name: Seq<u8>) -> bool {
        idx_of(self.entries(), name) >= 0
    }

    /// The ranges the snapshot holds for `name`; empty when it is absent.
    pub open spec fn ranges_of(&self, name: Seq<u8>) -> Seq<SlotRange> {
        if idx_of(self.entries(), name) >= 0 {
            self.entries()[idx_of(self.entries(), name)].ranges@
        } else {
            Seq::empty()
        }
    }

    pub fn new() -> (m: MetaMap)
        ensures
            m.wf(),
            m.entries() == Seq::<ProxyClusterMeta>::empty(),
    {
        MetaMap { clusters: Vec::new() }
    }
}

fn find_cluster_idx(clusters: &Vec<ProxyClusterMeta>, name: &ClusterName) -> (r: Option<usize>)
    ensures
        (match r {
            Some(i) => i < clusters@.len() && idx_of(clusters@, name@) == i,
            None => idx_of(clusters@, name@) == -1,
        }),
{
    let mut i: usize = 0;
    while i < clusters.len()
        invariant
            i <= clusters@.len(),
            forall|k: int| 0 <= k < i ==> (#[trigger] clusters@[k]).cluster@ != name@,
        decreases clusters.len() - i,
    {
        if bytes_eq(&clusters[i].cluster.bytes, &name.bytes) {
            proof {
                lemma_idx_of_first(clusters@, name@, i as int);
            }
            return Some(i);
        }
        i = i + 1;
    }
    proof {
        lemma_idx_of_none(clusters@, name@);
    }
    None
}

/// The slot a key hashes to: a fixed deterministic fold of its bytes into
/// the slot space.
pub open spec fn key_slot(k: Seq<u8>) -> int
    decreases k.len(),
{
    if k.len() == 0 {
        0
    } else {
        (key_slot(k.drop_last()) * 31 + k.last()) % 16384
    }
}

/// Computes the slot of a key.
pub fn slot_of_key(key: &Vec<u8>) -> (s: u16)
    ensures
        s == key_slot(key@),
        s < 16384,
{
    let mut h: u32 = 0;
    let mut i: usize = 0;
    while i < key.len()
        invariant
            i <= key.len(),
            h < 16384,
            h == key_slot(key@.take(i as int)),
        decreases key.len() - i,
    {
        proof {
            assert(key@.take(i + 1).drop_last() =~= key@.take(i as int));
            assert(key@.take(i + 1).last() == key@[i as int]);
        }
        h = (h * 31 + (key[i] as u32)) % 16384;
        i = i + 1;
    }
    proof {
        assert(key@.take(key@.len() as int) =~= key@);
    }
    h as u16
}

/// First range of `rs` containing `slot`, or `-1`.
pub open spec fn range_idx(rs: Seq<SlotRange>, slot: int) -> int
    decreases rs.len(),
{
    if rs.len() == 0 {
        -1
    } else if rs[0].start <= slot <= rs[0].end {
        0
    } else {
        let r = range_idx(rs.drop_first(), slot);
        if r == -1 {
            -1
        } else {
            r + 1
        }
    }
}

proof fn lemma_range_idx_first(rs: Seq<SlotRange>, slot: int, j: int)
    requires
        0 <= j < rs.len(),
        rs[j].start <= slot <= rs[j].end,
        forall|k: int| 0 <= k < j ==> !((#[trigger] rs[k]).start <= slot <= rs[k].end),
    ensures
        range_idx(rs, slot) == j,
    decreases j,
{
    if j > 0 {
        assert(forall|k: int| 0 <= k < rs.len() - 1 ==> rs.drop_first()[k] == rs[k + 1]);
        lemma_range_idx_first(rs.drop_first(), slot, j - 1);
    }
}

/// Where a command is to go: the owning backend's address, and whether
/// that ownership is in migration.
pub struct RouteTarget {
    pub addr: Vec<u8>,
    pub migrating: bool,
}

/// Holds the active metadata snapshot and answers routing questions from
/// it.  Updates replace the snapshot wholesale; a rejected update leaves
/// the previous snapshot active, so `MetaMap::wf` holds of whatever any
/// lookup reads, at every moment.
pub struct MetaManager {
    meta: MetaMap,
}

impl MetaManager {
    pub open spec fn wf(&self) -> bool {
        self.snapshot().wf()
    }

    pub closed spec fn snapshot(&self) -> MetaMap {
        self.meta
    }

    pub fn new() -> (m: MetaManager)
        ensures
            m.wf(),
            m.snapshot().entries() == Seq::<ProxyClusterMeta>::empty(),
    {
        MetaManager { meta: MetaMap::new() }
    }

    /// Installs a metadata update: validated first, and applied only as a
    /// whole.  A valid update becomes the ranges of its cluster, leaving
    /// every other cluster untouched; an invalid one is rejected with the
    /// previous snapshot still active.
    pub fn set_meta(&mut self, m: ProxyClusterMeta) -> (r: Result<(), MetaError>)
        requires
            old(self).wf(),
        ensures
            final(self).wf(),
            !valid_partition(m.ranges@) ==> r == Result::<(), MetaError>::Err(
                MetaError::InvalidRanges,
            ) && *final(self) === *old(self),
            valid_partition(m.ranges@) ==> r is Ok && final(self).snapshot().has_cluster(
                m.cluster@,
            ) && final(self).snapshot().ranges_of(m.cluster@) == m.ranges@,
            valid_partition(m.ranges@) ==> forall|n: Seq<u8>|
                n != m.cluster@ ==> final(self).snapshot().has_cluster(n) == old(
                    self,
                ).snapshot().has_cluster(n) && final(self).snapshot().ranges_of(n) == old(
                    self,
                ).snapshot().ranges_of(n),
    {
        if !check_partition(&m.ranges) {
            return Err(MetaError::InvalidRanges);
        }
        let ghost cs0 = self.meta.clusters@;
        let ghost name = m.cluster@;
        match find_cluster_idx(&self.meta.clusters, &m.cluster) {
            Some(i) => {
                self.meta.clusters.set(i, m);
                proof {
                    let cs1 = self.meta.clusters@;
                    assert(cs1 == cs0.update(i as int, m));
                    lemma_idx_of_props(cs0, name);
                    lemma_idx_of_update(cs0, i as int, m, name);
                    assert(idx_of(cs1, name) == i);
                    assert(cs0[i as int].cluster@ == name);
                    assert(forall|x: int|
                        0 <= x < cs1.len() ==> (#[trigger] cs1[x]).cluster@ == cs0[x].cluster@);
                    assert forall|n: Seq<u8>| n != name implies idx_of(cs1, n) == idx_of(cs0, n)
                        && (idx_of(cs0, n) >= 0 ==> cs1[idx_of(cs0, n)] == cs0[idx_of(
                        cs0,
                        n,
                    )]) by {
                        lemma_idx_of_props(cs0, n);
                        lemma_idx_of_update(cs0, i as int, m, n);
                    }
                    assert forall|x: int| 0 <= x < cs1.len() implies valid_partition(
                        (#[trigger] cs1[x]).ranges@,
                    ) by {
                        if x != i {
                            assert(valid_partition(old(self).snapshot().entries()[x].ranges@));
                        }
                    }
                    assert forall|a: int, b: int| 0 <= a < b < cs1.len() implies (
                    #[trigger] cs1[a]).cluster@ != (#[trigger] cs1[b]).cluster@ by {
                        assert(old(self).snapshot().entries()[a].cluster@ != old(
                            self,
                        ).snapshot().entries()[b].cluster@);
                        assert(cs1[a].cluster@ == cs0[a].cluster@);
                        assert(cs1[b].cluster@ == cs0[b].cluster@);
                    }
                }
                Ok(())
            },
            None => {
                self.meta.clusters.push(m);
                proof {
                    let cs1 = self.meta.clusters@;
                    assert(cs1 == cs0.push(m));
                    assert(forall|k: int| 0 <= k < cs0.len() ==> #[trigger] cs1[k] == cs0[k]);
                    lemma_idx_of_props(cs0, name);
                    lemma_idx_of_first(cs1, name, cs0.len() as int);
                    assert forall|n: Seq<u8>| n != name implies idx_of(cs1, n) == idx_of(cs0, n)
                        && (idx_of(cs0, n) >= 0 ==> cs1[idx_of(cs0, n)] == cs0[idx_of(
                        cs0,
                        n,
                    )]) by {
                        lemma_idx_of_props(cs0, n);
                        lemma_idx_of_push(cs0, m, n);
                    }
                    assert forall|x: int| 0 <= x < cs1.len() implies valid_partition(
                        (#[trigger] cs1[x]).ranges@,
                    ) by {
                        if x < cs0.len() {
                            assert(valid_partition(old(self).snapshot().entries()[x].ranges@));
                        }
                    }
                    assert forall|a: int, b: int| 0 <= a < b < cs1.len() implies (
                    #[trigger] cs1[a]).cluster@ != (#[trigger] cs1[b]).cluster@ by {
                        if b < cs0.len() {
                            assert(old(self).snapshot().entries()[a].cluster@ != old(
                                self,
                            ).snapshot().entries()[b].cluster@);
                        } else {
                            assert(cs1[b].cluster@ == name);
                            assert(cs0[a].cluster@ != name);
                        }
                    }
                }
                Ok(())
            },
        }
    }

    /// Resolves the backend owning `key` in `cluster`, from the active
    /// snapshot alone.  Fails exactly when the snapshot has no such
    /// cluster; a known cluster always yields the address of the one range
    /// holding the key's slot, because a snapshot's ranges cover every
    /// slot.
    #[verifier::rlimit(100)]
    pub fn route(&self, cluster: &ClusterName, key: &Vec<u8>) -> (r: Result<
        RouteTarget,
        RouterError,
    >)
        requires
            self.wf(),
        ensures
            r is Err <==> !self.snapshot().has_cluster(cluster@),
            r is Err ==> r == Result::<RouteTarget, RouterError>::Err(RouterError::ClusterNotFound),
            r is Ok ==> ({
                let rs = self.snapshot().ranges_of(cluster@);
                let ri = range_idx(rs, key_slot(key@));
                &&& 0 <= ri < rs.len()
                &&& r->Ok_0.addr@ == rs[ri].addr@
                &&& r->Ok_0.migrating == rs[ri].migrating
            }),
    {
        let found = match find_cluster_idx(&self.meta.clusters, cluster) {
            Some(i) => i,
            None => {
                return Err(RouterError::ClusterNotFound);
            },
        };
        let slot = slot_of_key(key);
        let ghost rs = self.meta.clusters@[found as int].ranges@;
        proof {
            assert(valid_partition((self.meta.entries()[found as int]).ranges@));
        }
        let nr = self.meta.clusters[found].ranges.len();
        let mut j: usize = 0;
        while j < nr
            invariant
                0 <= found < self.meta.clusters@.len(),
                idx_of(self.meta.clusters@, cluster@) == found,
                self.snapshot().ranges_of(cluster@) == rs,
                rs == self.meta.clusters@[found as int].ranges@,
                valid_partition(rs),
                nr == rs.len(),
                j <= nr,
                slot < 16384,
                slot == key_slot(key@),
                forall|k: int| 0 <= k < j ==> !((#[trigger] rs[k]).start <= slot <= rs[k].end),
                j > 0 ==> slot > rs[j - 1].end,
            decreases nr - j,
        {
            let rg_start = self.meta.clusters[found].ranges[j].start;
            let rg_end = self.meta.clusters[found].ranges[j].end;
            if rg_start <= slot && slot <= rg_end {
                proof {
                    lemma_range_idx_first(rs, slot as int, j as int);
                }
                let target = RouteTarget {
                    addr: copy_bytes(&self.meta.clusters[found].ranges[j].addr),
                    migrating: self.meta.clusters[found].ranges[j].migrating,
                };
                return Ok(target);
            }
            j = j + 1;
        }
        proof {
            assert(rs[nr - 1].end == 16383);
            assert(slot > rs[nr - 1].end);
            assert(false);
        }
        Err(RouterError::ClusterNotFound)
    }
}

/// The key a command addresses: the second element of its array frame,
/// when that element is a present bulk string.
pub open spec fn key_of(v: RespV) -> Option<Seq<u8>> {
    match v {
        RespV::Arr(elems) => if elems.len() >= 2 {
            match elems[1] {
                RespV::Bulk(k) => Some(k),
                _ => None,
            }
        } else {
            None
        },
        _ => None,
    }
}

/// Extracts the key of a command, exactly as `key_of` reads it.
pub fn get_key(cmd: &Command) -> (r: Option<Vec<u8>>)
    ensures
        (match r {
            Some(k) => key_of(cmd.resp@) == Some(k@),
            None => key_of(cmd.resp@) is None,
        }),
{
    match &cmd.resp {
        Resp::Arr(elems) => {
            if elems.len() >= 2 {
                proof {
                    assert(crate::resp::resp_views(elems@)[1] == elems@[1]@);
                }
                match &elems[1] {
                    Resp::Bulk(BulkStr::Str(k)) => Some(copy_bytes(k)),
                    _ => None,
                }
            } else {
                None
            }
        },
        _ => None,
    }
}

/// `ERR cluster not found`: the marker every reply for an unknown cluster
/// starts with.
pub open spec fn cluster_not_found_text() -> Seq<u8> {
    seq![
        69u8, 82u8, 82u8, 32u8, 99u8, 108u8, 117u8, 115u8, 116u8, 101u8, 114u8, 32u8, 110u8,
        111u8, 116u8, 32u8, 102u8, 111u8, 117u8, 110u8, 100u8,
    ]
}

/// `ERR backend connection`: the marker for a backend that cannot be
/// reached.
pub open spec fn backend_connection_text() -> Seq<u8> {
    seq![
        69u8, 82u8, 82u8, 32u8, 98u8, 97u8, 99u8, 107u8, 101u8, 110u8, 100u8, 32u8, 99u8, 111u8,
        110u8, 110u8, 101u8, 99u8, 116u8, 105u8, 111u8, 110u8,
    ]
}

/// `ERR slot migrating`: the range owning the key is in migration, which
/// is surfaced rather than served stale.
pub open spec fn migrating_text_reply() -> Seq<u8> {
    seq![
        69u8, 82u8, 82u8, 32u8, 115u8, 108u8, 111u8, 116u8, 32u8, 109u8, 105u8, 103u8, 114u8,
        97u8, 116u8, 105u8, 110u8, 103u8,
    ]
}

/// `ERR invalid command`: the frame carries no key to route by.
pub open spec fn invalid_command_text() -> Seq<u8> {
    seq![
        69u8, 82u8, 82u8, 32u8, 105u8, 110u8, 118u8, 97u8, 108u8, 105u8, 100u8, 32u8, 99u8,
        111u8, 109u8, 109u8, 97u8, 110u8, 100u8,
    ]
}

/// The client-visible error frame for a routing failure, carrying the
/// specific marker of its kind.
pub fn error_reply(e: &RouterError) -> (r: Resp)
    ensures
        (match e {
            RouterError::ClusterNotFound => r@ == RespV::Error(cluster_not_found_text()),
            RouterError::Backend => r@ == RespV::Error(backend_connection_text()),
        }),
{
    match e {
        RouterError::ClusterNotFound => {
            let text: Vec<u8> = vec![
                69u8, 82u8, 82u8, 32u8, 99u8, 108u8, 117u8, 115u8, 116u8, 101u8, 114u8, 32u8,
                110u8, 111u8, 116u8, 32u8, 102u8, 111u8, 117u8, 110u8, 100u8,
            ];
            proof {
                assert(text@ =~= cluster_not_found_text());
            }
            Resp::Error(text)
        },
        RouterError::Backend => {
            let text: Vec<u8> = vec![
                69u8, 82u8, 82u8, 32u8, 98u8, 97u8, 99u8, 107u8, 101u8, 110u8, 100u8, 32u8, 99u8,
                111u8, 110u8, 110u8, 101u8, 99u8, 116u8, 105u8, 111u8, 110u8,
            ];
            proof {
                assert(text@ =~= backend_connection_text());
            }
            Resp::Error(text)
        },
    }
}

fn migrating_reply() -> (r: Resp)
    ensures
        r@ == RespV::Error(migrating_text_reply()),
{
    let text: Vec<u8> = vec![
        69u8, 82u8, 82u8, 32u8, 115u8, 108u8, 111u8, 116u8, 32u8, 109u8, 105u8, 103u8, 114u8,
        97u8, 116u8, 105u8, 110u8, 103u8,
    ];
    proof {
        assert(text@ =~= migrating_text_reply());
    }
    Resp::Error(text)
}

fn invalid_command_reply() -> (r: Resp)
    ensures
        r@ == RespV::Error(invalid_command_text()),
{
    let text: Vec<u8> = vec![
        69u8, 82u8, 82u8, 32u8, 105u8, 110u8, 118u8, 97u8, 108u8, 105u8, 100u8, 32u8, 99u8,
        111u8, 109u8, 109u8, 97u8, 110u8, 100u8,
    ];
    proof {
        assert(text@ =~= invalid_command_text());
    }
    Resp::Error(text)
}

/// One command in flight on a connection: the cluster it belongs to, the
/// sender that will carry its reply, and the id of its session.
pub struct CmdCtx {
    pub cluster_name: ClusterName,
    pub sender: CmdReplySender,
    pub session_id: u64,
}

impl CmdCtx {
    pub fn new(cluster_name: ClusterName, sender: CmdReplySender, session_id: u64) -> (c: CmdCtx)
        ensures
            c.cluster_name@ == cluster_name@,
            c.sender.cmd() == sender.cmd(),
            c.session_id == session_id,
    {
        CmdCtx { cluster_name, sender, session_id }
    }
}

/// A command the router resolved, ready for the backend collaborator: the
/// owning backend's address and the command context to answer through.
pub struct ForwardTask {
    pub addr: Vec<u8>,
    pub cmd_ctx: CmdCtx,
}

impl MetaManager {
    /// Dispatches one command: reads the active snapshot once, and either
    /// answers at once through the command's own sender — with the
    /// specific error marker for an unknown cluster, a keyless frame, or
    /// a migrating range — or hands back the forwarding task for the
    /// backend that owns the key's slot.  Every command thus resolves to
    /// exactly one reply: here, or at the backend the task names.
    pub fn send(&self, cmd_ctx: CmdCtx) -> (fw: Option<ForwardTask>)
        requires
            self.wf(),
        ensures
            (match fw {
                Some(task) => ({
                    let kv = key_of(cmd_ctx.sender.cmd().resp@);
                    let rs = self.snapshot().ranges_of(cmd_ctx.cluster_name@);
                    &&& kv is Some
                    &&& self.snapshot().has_cluster(cmd_ctx.cluster_name@)
                    &&& ({
                        let ri = range_idx(rs, key_slot(kv->0));
                        &&& 0 <= ri < rs.len()
                        &&& task.addr@ == rs[ri].addr@
                        &&& !rs[ri].migrating
                    })
                    &&& task.cmd_ctx.sender.cmd() == cmd_ctx.sender.cmd()
                    &&& task.cmd_ctx.cluster_name@ == cmd_ctx.cluster_name@
                }),
                None => ({
                    let kv = key_of(cmd_ctx.sender.cmd().resp@);
                    let rs = self.snapshot().ranges_of(cmd_ctx.cluster_name@);
                    ||| kv is None
                    ||| !self.snapshot().has_cluster(cmd_ctx.cluster_name@)
                    ||| (kv is Some && 0 <= range_idx(rs, key_slot(kv->0)) < rs.len() && rs[
                        range_idx(rs, key_slot(kv->0))
                    ].migrating)
                }),
            }),
    {
        let CmdCtx { cluster_name, sender, session_id } = cmd_ctx;
        let key = match get_key(sender.command()) {
            Some(k) => k,
            None => {
                let _ = sender.send(Ok(invalid_command_reply()));
                return None;
            },
        };
        match self.route(&cluster_name, &key) {
            Ok(target) => {
                if target.migrating {
                    let _ = sender.send(Ok(migrating_reply()));
                    None
                } else {
                    Some(
                        ForwardTask {
                            addr: target.addr,
                            cmd_ctx: CmdCtx { cluster_name, sender, session_id },
                        },
                    )
                }
            },
            Err(e) => {
                let reply = error_reply(&e);
                let _ = sender.send(Ok(reply));
                None
            },
        }
    }
}

} // verus!
