//! Immutable on-disk sorted runs. A run is a pair of files: a data file
//! holding the concatenated encodings of timestamped values in key order,
//! and an index file mapping each key to the byte range its value
//! occupies. This module builds a run from an ordered entry stream,
//! point-reads a key, and merges two runs with last-writer-wins
//! reconciliation; the file bytes themselves are produced and consumed
//! here, while reading and writing the files is the caller's concern.
//!
//! A run holds the full contents of its data file in memory beside its
//! index, so opening a run reads and validates both files up front and a
//! point read touches no file. This trades the lazy per-read file access
//! of a disk-resident design for checkable state: corruption surfaces
//! when a run is opened, not on the first unlucky read.

use vstd::prelude::*;

use crate::codec::{
    pow256, le_bytes, from_le, enc_str, dec_str_at, enc_tsv, dec_tsv_exact, encode_le, decode_le,
    encode_str, decode_str, encode_tsv_vec, decode_tsv_exact, lemma_le_bytes_len,
    lemma_le_round_trip, lemma_enc_str_len, lemma_dec_str_at, lemma_tsv_round_trip, tsv_fits,
};
use crate::errors::{DungeonError, DungeonResult};
use crate::merge_model::{
    collapse, merge_seq, lww_pick, pair_winner, keys_sorted_le, lemma_collapse_cons_distinct,
    lemma_collapse_cons_pair, lemma_collapse_strict_id, lemma_merge_lww, lemma_merge_seq_sorted_le,
    lemma_assoc_below_min,
};
use crate::order::{lex_lt, key_compare, KeyOrder, lemma_lex_trichotomy, lemma_lex_transitive};
use crate::run_id::{digits_value, parse_run_id};
use crate::sorted_map::{
    SortedMap, assoc_get, keys_sorted, lemma_assoc_concat, lemma_assoc_absent, lemma_assoc_at,
};
use crate::value::{TimeStampedValue, TsvView};

verus! {

/// A byte range within a run's data file.
#[derive(Clone, Copy, Debug)]
pub struct DocumentSegment {
    pub offset: u64,
    pub length: u64,
}

impl View for DocumentSegment {
    type V = DocumentSegment;

    open spec fn view(&self) -> DocumentSegment {
        *self
    }
}

impl From<(u64, u64)> for DocumentSegment {
    fn from(value: (u64, u64)) -> (r: Self) {
        let (offset, length) = value;
        DocumentSegment { offset, length }
    }
}

impl vstd::std_specs::convert::FromSpecImpl<(u64, u64)> for DocumentSegment {
    open spec fn obeys_from_spec() -> bool {
        true
    }

    open spec fn from_spec(value: (u64, u64)) -> Self {
        DocumentSegment { offset: value.0, length: value.1 }
    }
}

/// A run's index: an ordered map from key to the byte range holding the
/// key's encoded value.
pub struct Index {
    pub table: SortedMap<DocumentSegment>,
}

impl Index {
    pub open spec fn entries_view(&self) -> Seq<(Seq<char>, DocumentSegment)> {
        self.table.entries_view()
    }

    pub open spec fn wf(&self) -> bool {
        self.table.wf()
    }

    pub open spec fn spec_get(&self, k: Seq<char>) -> Option<DocumentSegment> {
        assoc_get(self.entries_view(), k)
    }

    pub fn new() -> (r: Self)
        ensures
            r.wf(),
            r.entries_view() == Seq::<(Seq<char>, DocumentSegment)>::empty(),
    {
        Index { table: SortedMap::new() }
    }

    /// Binds a key to a byte range, overwriting any earlier binding.
    pub fn insert(&mut self, key: String, segment: DocumentSegment)
        requires
            old(self).wf(),
        ensures
            final(self).wf(),
            final(self).spec_get(key@) == Some(segment),
            forall|k: Seq<char>|
                k != key@ ==> final(self).spec_get(k) == old(self).spec_get(k),
    {
        self.table.insert(key.as_str(), segment);
        proof {
            assert(self.table.spec_get(key@) == Some(segment));
            assert forall|k: Seq<char>|
                k != key@ implies self.spec_get(k) == old(self).spec_get(k) by {
                assert(self.table.spec_get(k) == old(self).table.spec_get(k));
            }
        }
    }

    /// Reads the byte range bound to a key, if any.
    pub fn get(&self, key: &str) -> (r: Option<DocumentSegment>)
        requires
            self.wf(),
        ensures
            r == self.spec_get(key@),
    {
        match self.table.get(key) {
            Some(seg) => Some(*seg),
            None => None,
        }
    }

    pub fn len(&self) -> (r: usize)
        ensures
            r == self.entries_view().len(),
    {
        self.table.len()
    }
}

/// The encoding of one index entry: the key, then the byte range's offset
/// and length, eight little-endian bytes each.
pub open spec fn enc_ientry(e: (Seq<char>, DocumentSegment)) -> Seq<u8> {
    enc_str(e.0) + le_bytes(e.1.offset as nat, 8) + le_bytes(e.1.length as nat, 8)
}

pub open spec fn enc_ientries(s: Seq<(Seq<char>, DocumentSegment)>) -> Seq<u8>
    decreases s.len(),
{
    if s.len() == 0 {
        Seq::empty()
    } else {
        enc_ientry(s[0]) + enc_ientries(s.drop_first())
    }
}

/// The encoding of an index: its entry count as eight little-endian
/// bytes, then its entries in key order.
pub open spec fn enc_index(s: Seq<(Seq<char>, DocumentSegment)>) -> Seq<u8> {
    le_bytes(s.len(), 8) + enc_ientries(s)
}

pub proof fn lemma_enc_ientry_len(e: (Seq<char>, DocumentSegment))
    ensures
        enc_ientry(e).len() == 24 + 4 * e.0.len(),
{
    lemma_enc_str_len(e.0);
    lemma_le_bytes_len(e.1.offset as nat, 8);
    lemma_le_bytes_len(e.1.length as nat, 8);
}

pub proof fn lemma_enc_ientries_push(s: Seq<(Seq<char>, DocumentSegment)>, e: (
    Seq<char>,
    DocumentSegment,
))
    ensures
        enc_ientries(s.push(e)) == enc_ientries(s) + enc_ientry(e),
    decreases s.len(),
{
    assert(s.push(e)[0] == if s.len() == 0 { e } else { s[0] });
    if s.len() == 0 {
        assert(s.push(e).drop_first() =~= Seq::<(Seq<char>, DocumentSegment)>::empty());
        assert(enc_ientries(s.push(e).drop_first()) =~= Seq::<u8>::empty());
        assert(enc_ientries(s.push(e)) =~= enc_ientries(s) + enc_ientry(e));
    } else {
        assert(s.push(e).drop_first() =~= s.drop_first().push(e));
        lemma_enc_ientries_push(s.drop_first(), e);
        assert(enc_ientries(s.push(e)) =~= enc_ientry(s[0]) + (enc_ientries(s.drop_first())
            + enc_ientry(e)));
        assert(enc_ientries(s.push(e)) =~= enc_ientries(s) + enc_ientry(e));
    }
}

/// The index entry whose encoding sits at pos, with the position past it.
pub open spec fn dec_ientry_at(bytes: Seq<u8>, pos: int) -> Option<(
    (Seq<char>, DocumentSegment),
    int,
)> {
    match dec_str_at(bytes, pos) {
        None => None,
        Some((key, p2)) => {
            if p2 + 16 <= bytes.len() {
                let off = from_le(bytes.subrange(p2, p2 + 8));
                let len = from_le(bytes.subrange(p2 + 8, p2 + 16));
                if off < 0x10000000000000000 && len < 0x10000000000000000 {
                    Some(
                        (
                            (key, DocumentSegment { offset: off as u64, length: len as u64 }),
                            p2 + 16,
                        ),
                    )
                } else {
                    None
                }
            } else {
                None
            }
        },
    }
}

pub open spec fn dec_ientries_at(bytes: Seq<u8>, pos: int, cnt: nat) -> Option<(
    Seq<(Seq<char>, DocumentSegment)>,
    int,
)>
    decreases cnt,
{
    if cnt == 0 {
        Some((Seq::empty(), pos))
    } else {
        match dec_ientry_at(bytes, pos) {
            None => None,
            Some((e, p2)) => match dec_ientries_at(bytes, p2, (cnt - 1) as nat) {
                None => None,
                Some((rest, end)) => Some((seq![e] + rest, end)),
            },
        }
    }
}

/// An index decoded from the whole byte sequence, consumed exactly.
pub open spec fn dec_index_exact(bytes: Seq<u8>) -> Option<Seq<(Seq<char>, DocumentSegment)>> {
    if 8 <= bytes.len() {
        let n = from_le(bytes.subrange(0, 8));
        match dec_ientries_at(bytes, 8, n) {
            None => None,
            Some((s, end)) => if end == bytes.len() {
                Some(s)
            } else {
                None
            },
        }
    } else {
        None
    }
}

pub proof fn lemma_dec_ientry_at(bytes: Seq<u8>, pos: int, e: (Seq<char>, DocumentSegment))
    requires
        0 <= pos,
        pos + enc_ientry(e).len() <= bytes.len(),
        bytes.subrange(pos, pos + enc_ientry(e).len()) == enc_ientry(e),
        e.0.len() < pow256(8),
    ensures
        dec_ientry_at(bytes, pos) == Some((e, pos + enc_ientry(e).len())),
{
    lemma_enc_ientry_len(e);
    lemma_enc_str_len(e.0);
    lemma_le_bytes_len(e.1.offset as nat, 8);
    lemma_le_bytes_len(e.1.length as nat, 8);
    let slen = enc_str(e.0).len();
    assert forall|j: int| 0 <= j < slen implies bytes[pos + j] == enc_str(e.0)[j] by {
        assert(bytes.subrange(pos, pos + enc_ientry(e).len())[j] == enc_ientry(e)[j]);
    };
    assert(bytes.subrange(pos, pos + slen) =~= enc_str(e.0));
    lemma_dec_str_at(bytes, pos, e.0);
    let p2 = pos + slen;
    assert forall|j: int| 0 <= j < 8 implies bytes[p2 + j] == le_bytes(e.1.offset as nat, 8)[j] by {
        assert(bytes.subrange(pos, pos + enc_ientry(e).len())[slen + j] == enc_ientry(e)[slen + j]);
    };
    assert(bytes.subrange(p2, p2 + 8) =~= le_bytes(e.1.offset as nat, 8));
    assert forall|j: int|
        0 <= j < 8 implies bytes[p2 + 8 + j] == le_bytes(e.1.length as nat, 8)[j] by {
        assert(bytes.subrange(pos, pos + enc_ientry(e).len())[slen + 8 + j] == enc_ientry(e)[slen
            + 8 + j]);
    };
    assert(bytes.subrange(p2 + 8, p2 + 16) =~= le_bytes(e.1.length as nat, 8));
    reveal_with_fuel(pow256, 9);
    lemma_le_round_trip(e.1.offset as nat, 8);
    lemma_le_round_trip(e.1.length as nat, 8);
}

pub proof fn lemma_dec_ientries_at(bytes: Seq<u8>, pos: int, s: Seq<(Seq<char>, DocumentSegment)>)
    requires
        0 <= pos,
        pos + enc_ientries(s).len() <= bytes.len(),
        bytes.subrange(pos, pos + enc_ientries(s).len()) == enc_ientries(s),
        forall|i: int| 0 <= i < s.len() ==> (#[trigger] s[i].0).len() < pow256(8),
    ensures
        dec_ientries_at(bytes, pos, s.len()) == Some((s, pos + enc_ientries(s).len())),
    decreases s.len(),
{
    if s.len() > 0 {
        let e = s[0];
        lemma_enc_ientry_len(e);
        let elen = enc_ientry(e).len();
        assert(enc_ientries(s) == enc_ientry(e) + enc_ientries(s.drop_first()));
        assert forall|j: int| 0 <= j < elen implies bytes[pos + j] == enc_ientry(e)[j] by {
            assert(bytes.subrange(pos, pos + enc_ientries(s).len())[j] == enc_ientries(s)[j]);
        };
        assert(bytes.subrange(pos, pos + elen) =~= enc_ientry(e));
        lemma_dec_ientry_at(bytes, pos, e);
        let rest = s.drop_first();
        assert forall|j: int|
            0 <= j < enc_ientries(rest).len() implies bytes[pos + elen + j] == enc_ientries(
            rest,
        )[j] by {
            assert(bytes.subrange(pos, pos + enc_ientries(s).len())[elen + j] == enc_ientries(
                s,
            )[elen + j]);
        };
        assert(bytes.subrange(pos + elen, pos + elen + enc_ientries(rest).len()) =~= enc_ientries(
            rest,
        ));
        assert(forall|i: int|
            0 <= i < rest.len() ==> (#[trigger] rest[i].0).len() < pow256(8)) by {
            assert(forall|i: int| 0 <= i < rest.len() ==> rest[i] == s[i + 1]);
        }
        lemma_dec_ientries_at(bytes, pos + elen, rest);
        assert(seq![e] + rest =~= s);
    }
}

/// Round trip: decoding an encoded index yields the entries back.
pub proof fn lemma_index_round_trip(s: Seq<(Seq<char>, DocumentSegment)>)
    requires
        s.len() < pow256(8),
        forall|i: int| 0 <= i < s.len() ==> (#[trigger] s[i].0).len() < pow256(8),
    ensures
        dec_index_exact(enc_index(s)) == Some(s),
{
    let bytes = enc_index(s);
    lemma_le_bytes_len(s.len(), 8);
    assert(bytes.subrange(0, 8) =~= le_bytes(s.len(), 8));
    lemma_le_round_trip(s.len(), 8);
    assert forall|j: int| 0 <= j < enc_ientries(s).len() implies bytes[8 + j] == enc_ientries(
        s,
    )[j] by {
        assert(bytes[8 + j] == (le_bytes(s.len(), 8) + enc_ientries(s))[8 + j]);
    };
    assert(bytes.subrange(8, 8 + enc_ientries(s).len() as int) =~= enc_ientries(s));
    lemma_dec_ientries_at(bytes, 8, s);
}

/// Encodes an index for its file. The entry count and every key fit the
/// length fields, as any index held in memory does.
pub fn encode_index(ix: &Index) -> (r: Vec<u8>)
    ensures
        r@ == enc_index(ix.entries_view()),
        ix.entries_view().len() < pow256(8),
        forall|i: int|
            0 <= i < ix.entries_view().len() ==> (#[trigger] ix.entries_view()[i]).0.len()
                < pow256(8),
{
    let n: usize = ix.table.len();
    let mut out: Vec<u8> = Vec::new();
    proof {
        reveal_with_fuel(pow256, 9);
    }
    encode_le(n as u128, 8, &mut out);
    let ghost whole = ix.entries_view();
    let mut i: usize = 0;
    proof {
        assert(out@ =~= le_bytes(whole.len(), 8) + enc_ientries(whole.take(0)));
    }
    while i < n
        invariant
            i <= n,
            n == whole.len(),
            whole == ix.entries_view(),
            out@ == le_bytes(whole.len(), 8) + enc_ientries(whole.take(i as int)),
            forall|j: int| 0 <= j < i ==> (#[trigger] whole[j]).0.len() < pow256(8),
        decreases n - i,
    {
        let entry = ix.table.entry_at(i);
        encode_str(entry.0.as_str(), &mut out);
        let off: u64 = entry.1.offset;
        let len: u64 = entry.1.length;
        proof {
            reveal_with_fuel(pow256, 9);
        }
        encode_le(off as u128, 8, &mut out);
        encode_le(len as u128, 8, &mut out);
        proof {
            lemma_enc_ientries_push(whole.take(i as int), whole[i as int]);
            assert(whole.take(i as int).push(whole[i as int]) =~= whole.take(i + 1));
            assert(out@ =~= le_bytes(whole.len(), 8) + enc_ientries(whole.take(i + 1)));
        }
        i = i + 1;
    }
    proof {
        assert(whole.take(n as int) =~= whole);
    }
    out
}

/// Decodes an index file. None when the bytes are not an index encoding
/// or the keys are not strictly ascending.
pub fn decode_index(bytes: &[u8]) -> (r: Option<Index>)
    ensures
        match r {
            Some(ix) => {
                &&& ix.wf()
                &&& dec_index_exact(bytes@) == Some(ix.entries_view())
            },
            None => dec_index_exact(bytes@) is None || !keys_sorted(
                dec_index_exact(bytes@)->0,
            ),
        },
{
    let blen: usize = bytes.len();
    if blen < 8 {
        return None;
    }
    let n128: u128 = decode_le(bytes, 0, 8);
    let mut ix = Index::new();
    let mut i: u128 = 0;
    let mut pos: usize = 8;
    while i < n128
        invariant
            i <= n128,
            pos <= blen,
            blen == bytes@.len(),
            n128 == from_le(bytes@.subrange(0, 8)),
            8 <= blen,
            ix.wf(),
            ix.entries_view().len() == i,
            dec_ientries_at(bytes@, 8, n128 as nat) == match dec_ientries_at(
                bytes@,
                pos as int,
                (n128 - i) as nat,
            ) {
                None => None::<(Seq<(Seq<char>, DocumentSegment)>, int)>,
                Some((rest, end)) => Some((ix.entries_view() + rest, end)),
            },
        decreases n128 - i,
    {
        let ghost pre = ix.entries_view();
        let ghost prepos = pos as int;
        let step = decode_ientry(bytes, pos);
        match step {
            None => {
                return None;
            },
            Some((key, seg, newpos)) => {
                // the keys must ascend strictly
                let klen: usize = ix.table.len();
                if klen > 0 {
                    let last = ix.table.entry_at(klen - 1);
                    match key_compare(last.0.as_str(), key.as_str()) {
                        KeyOrder::Less => {
                        },
                        _ => {
                            proof {
                                lemma_unsorted_prefix(
                                    bytes@,
                                    8,
                                    n128 as nat,
                                    pre,
                                    prepos,
                                    (n128 - i) as nat,
                                );
                            }
                            return None;
                        },
                    }
                }
                proof {
                    let e = ((key@, seg), newpos as int);
                    assert forall|j: int|
                        0 <= j < pre.len() implies lex_lt(#[trigger] pre[j].0, key@) by {
                        if j < pre.len() - 1 {
                            assert(lex_lt(pre[j].0, pre[pre.len() - 1].0));
                            lemma_lex_transitive(pre[j].0, pre[pre.len() - 1].0, key@);
                        }
                    }
                }
                ix.table.push_max(key, seg);
                pos = newpos;
                i = i + 1;
                proof {
                    assert(ix.entries_view() =~= pre.push((ix.entries_view().last().0, seg)));
                    assert forall|rest: Seq<(Seq<char>, DocumentSegment)>|
                        true implies pre + (seq![ix.entries_view().last()] + rest)
                        =~= ix.entries_view() + rest by {}
                }
            },
        }
    }
    if pos != blen {
        return None;
    }
    proof {
        assert(dec_ientries_at(bytes@, pos as int, 0) == Some((
            Seq::<(Seq<char>, DocumentSegment)>::empty(),
            pos as int,
        )));
        assert(ix.entries_view() + Seq::<(Seq<char>, DocumentSegment)>::empty()
            =~= ix.entries_view());
    }
    Some(ix)
}

/// When the entries already read violate the sort, the whole decode is
/// out of order.
proof fn lemma_unsorted_prefix(
    bytes: Seq<u8>,
    start: int,
    cnt: nat,
    pre: Seq<(Seq<char>, DocumentSegment)>,
    prepos: int,
    remaining: nat,
)
    requires
        dec_ientries_at(bytes, start, cnt) == match dec_ientries_at(bytes, prepos, remaining) {
            None => None::<(Seq<(Seq<char>, DocumentSegment)>, int)>,
            Some((rest, end)) => Some((pre + rest, end)),
        },
        pre.len() > 0,
        remaining > 0,
        dec_ientry_at(bytes, prepos) is Some,
        !lex_lt(pre.last().0, ((dec_ientry_at(bytes, prepos)->0).0).0),
    ensures
        dec_ientries_at(bytes, start, cnt) is None || !keys_sorted(
            (dec_ientries_at(bytes, start, cnt)->0).0,
        ),
{
    if dec_ientries_at(bytes, start, cnt) is Some {
        let (e, p2) = dec_ientry_at(bytes, prepos)->0;
        assert(dec_ientries_at(bytes, prepos, remaining) is Some);
        let (rest, _end) = dec_ientries_at(bytes, prepos, remaining)->0;
        assert(rest == seq![e] + (dec_ientries_at(bytes, p2, (remaining - 1) as nat)->0).0);
        let whole = pre + rest;
        assert(whole[pre.len() - 1] == pre.last());
        assert(rest[0] == e);
        assert(whole[pre.len() as int] == e);
        assert(!lex_lt(whole[pre.len() - 1].0, whole[pre.len() as int].0));
    }
}

/// Decodes one index entry at pos: the key, the byte range, and the
/// position just past them.
fn decode_ientry(bytes: &[u8], pos: usize) -> (r: Option<(String, DocumentSegment, usize)>)
    requires
        pos <= bytes@.len(),
    ensures
        match r {
            Some(p) => {
                &&& dec_ientry_at(bytes@, pos as int) == Some(((p.0@, p.1), p.2 as int))
                &&& p.2 <= bytes@.len()
            },
            None => dec_ientry_at(bytes@, pos as int) is None,
        },
{
    let blen: usize = bytes.len();
    match decode_str(bytes, pos) {
        None => None,
        Some((key, p2)) => {
            if blen - p2 < 16 {
                return None;
            }
            let off128: u128 = decode_le(bytes, p2, 8);
            let len128: u128 = decode_le(bytes, p2 + 8, 8);
            proof {
                reveal_with_fuel(pow256, 9);
            }
            let seg = DocumentSegment { offset: off128 as u64, length: len128 as u64 };
            Some((key, seg, p2 + 16))
        },
    }
}

} // verus!

verus! {

/// The bytes a segment selects out of a data file.
pub open spec fn seg_bytes(data: Seq<u8>, seg: DocumentSegment) -> Seq<u8> {
    data.subrange(seg.offset as int, seg.offset + seg.length)
}

/// A segment is sound for a data file when it lies within the file and
/// its bytes decode as one timestamped value.
pub open spec fn seg_ok(data: Seq<u8>, seg: DocumentSegment) -> bool {
    &&& seg.offset + seg.length <= data.len()
    &&& dec_tsv_exact(seg_bytes(data, seg)) is Some
}

/// The entries an index denotes over a data file: each key with the value
/// its segment decodes to.
pub open spec fn run_map(ix: Seq<(Seq<char>, DocumentSegment)>, data: Seq<u8>) -> Seq<
    (Seq<char>, TsvView),
> {
    ix.map(|_j: int, e: (Seq<char>, DocumentSegment)| (e.0, dec_tsv_exact(seg_bytes(data, e.1))->0))
}

/// A lookup through the denoted entries reads the index, then decodes.
pub proof fn lemma_run_map_get(ix: Seq<(Seq<char>, DocumentSegment)>, data: Seq<u8>, k: Seq<char>)
    ensures
        assoc_get(run_map(ix, data), k) == match assoc_get(ix, k) {
            None => None::<TsvView>,
            Some(seg) => Some(dec_tsv_exact(seg_bytes(data, seg))->0),
        },
    decreases ix.len(),
{
    if ix.len() > 0 {
        assert(run_map(ix, data)[0] == (ix[0].0, dec_tsv_exact(seg_bytes(data, ix[0].1))->0));
        assert(run_map(ix, data).drop_first() =~= run_map(ix.drop_first(), data));
        lemma_run_map_get(ix.drop_first(), data, k);
    }
}

/// The denoted entries carry the index's keys.
pub proof fn lemma_run_map_keys(ix: Seq<(Seq<char>, DocumentSegment)>, data: Seq<u8>)
    ensures
        run_map(ix, data).len() == ix.len(),
        forall|j: int| 0 <= j < ix.len() ==> (#[trigger] run_map(ix, data)[j]).0 == ix[j].0,
        keys_sorted(ix) ==> keys_sorted(run_map(ix, data)),
{
}

/// An immutable sorted run: its directory, its name (the decimal
/// nanosecond instant of its creation), its index, and the full contents
/// of its data file.
pub struct SSTable {
    pub base_dir: String,
    pub file_name: String,
    pub id: u128,
    pub index: Index,
    pub data: Vec<u8>,
}

/// The total length of the first j segments of an index.
pub open spec fn segs_prefix_len(entries: Seq<(Seq<char>, DocumentSegment)>, j: int) -> nat
    decreases j,
{
    if j <= 0 {
        0nat
    } else {
        (segs_prefix_len(entries, j - 1) + entries[j - 1].1.length) as nat
    }
}

/// The segments tile the data file: each starts where the previous one
/// ended, from offset zero, and together they cover it exactly, with no
/// dead bytes even where duplicate keys were collapsed.
pub open spec fn segments_contiguous(
    entries: Seq<(Seq<char>, DocumentSegment)>,
    data_len: nat,
) -> bool {
    &&& forall|j: int|
        0 <= j < entries.len() ==> (#[trigger] entries[j]).1.offset == segs_prefix_len(entries, j)
    &&& data_len == segs_prefix_len(entries, entries.len() as int)
}

/// A prefix sum of segment lengths does not see entries appended later.
pub proof fn lemma_segs_prefix_push(
    entries: Seq<(Seq<char>, DocumentSegment)>,
    e: (Seq<char>, DocumentSegment),
    j: int,
)
    requires
        0 <= j <= entries.len(),
    ensures
        segs_prefix_len(entries.push(e), j) == segs_prefix_len(entries, j),
    decreases j,
{
    if j > 0 {
        assert(entries.push(e)[j - 1] == entries[j - 1]);
        lemma_segs_prefix_push(entries, e, j - 1);
    }
}

/// The path a run's index file lives under.
pub open spec fn spec_index_path(t: SSTable) -> Seq<char> {
    t.base_dir@ + "/"@ + t.file_name@ + ".index"@
}

/// The path a run's data file lives under.
pub open spec fn spec_data_path(t: SSTable) -> Seq<char> {
    t.base_dir@ + "/"@ + t.file_name@ + ".chest"@
}

impl SSTable {
    /// Well-formed: the index is sorted, the name denotes the id, and
    /// every segment lies in the data file and decodes.
    pub open spec fn wf(&self) -> bool {
        &&& self.index.wf()
        &&& digits_value(self.file_name@) == Some(self.id as nat)
        &&& forall|j: int|
            0 <= j < self.index.entries_view().len() ==> seg_ok(
                self.data@,
                (#[trigger] self.index.entries_view()[j]).1,
            )
    }

    /// The run's entries, in ascending key order.
    pub open spec fn run_entries(&self) -> Seq<(Seq<char>, TsvView)> {
        run_map(self.index.entries_view(), self.data@)
    }

    /// The lookup function the run denotes.
    pub open spec fn spec_get(&self, k: Seq<char>) -> Option<TsvView> {
        assoc_get(self.run_entries(), k)
    }

    /// The path of the run's data file.
    pub fn get_data_file_path(&self) -> (r: String)
        ensures
            r@ == spec_data_path(*self),
    {
        let mut s = self.base_dir.clone();
        s.append("/");
        s.append(self.file_name.as_str());
        s.append(".chest");
        s
    }

    /// The path of the run's index file.
    pub fn get_index_file_path(&self) -> (r: String)
        ensures
            r@ == spec_index_path(*self),
    {
        let mut s = self.base_dir.clone();
        s.append("/");
        s.append(self.file_name.as_str());
        s.append(".index");
        s
    }

    /// Reads the value stored under a key, the deletion marker included.
    /// A well-formed run always answers.
    pub fn get(&self, key: &str) -> (r: DungeonResult<Option<TimeStampedValue>>)
        requires
            self.wf(),
        ensures
            match r {
                Ok(opt) => match opt {
                    Some(tv) => self.spec_get(key@) == Some(tv@),
                    None => self.spec_get(key@) is None,
                },
                Err(_) => false,
            },
    {
        proof {
            lemma_run_map_get(self.index.entries_view(), self.data@, key@);
        }
        match self.index.get(key) {
            None => Ok(None),
            Some(seg) => {
                proof {
                    crate::sorted_map::lemma_assoc_present(self.index.entries_view(), key@);
                    let i = choose|i: int|
                        0 <= i < self.index.entries_view().len() && self.index.entries_view()[i].0
                            == key@ && self.index.entries_view()[i].1 == seg;
                    assert(seg_ok(self.data@, self.index.entries_view()[i].1));
                }
                let dlen: usize = self.data.len();
                let a: usize = seg.offset as usize;
                let b: usize = a + seg.length as usize;
                let section: &[u8] = &self.data.as_slice()[a..b];
                proof {
                    assert(section@ =~= seg_bytes(self.data@, seg));
                }
                match decode_tsv_exact(section) {
                    Some(tv) => Ok(Some(tv)),
                    None => {
                        proof {
                            assert(false);
                        }
                        Err(DungeonError::new("Could not parse value"))
                    },
                }
            },
        }
    }

    /// Opens a run from the contents of its two files, named by the file
    /// stem they share. Every segment is checked against the data file,
    /// so a well-formed run comes back or an error does.
    pub fn from_file(base_dir: String, file_name: String, index_bytes: &[u8], data: Vec<u8>) -> (r:
        DungeonResult<SSTable>)
        ensures
            match r {
                Ok(t) => {
                    &&& run_file_ok(file_name@, index_bytes@, data@)
                    &&& t.wf()
                    &&& t.index.entries_view() == dec_index_exact(index_bytes@)->0
                    &&& t.data@ == data@
                    &&& t.base_dir@ == base_dir@
                    &&& t.file_name@ == file_name@
                    &&& Some(t.id as nat) == digits_value(file_name@)
                },
                Err(_) => !run_file_ok(file_name@, index_bytes@, data@),
            },
    {
        let id: u128 = match parse_run_id(file_name.as_str()) {
            Some(id) => id,
            None => {
                return Err(DungeonError::new("Run name is not a decimal instant"));
            },
        };
        let ix: Index = match decode_index(index_bytes) {
            Some(ix) => ix,
            None => {
                return Err(DungeonError::new("Could not parse index file"));
            },
        };
        let n: usize = ix.len();
        let dlen: usize = data.len();
        let mut j: usize = 0;
        while j < n
            invariant
                j <= n,
                n == ix.entries_view().len(),
                ix.wf(),
                dlen == data@.len(),
                dec_index_exact(index_bytes@) == Some(ix.entries_view()),
                forall|l: int| 0 <= l < j ==> seg_ok(data@, (#[trigger] ix.entries_view()[l]).1),
            decreases n - j,
        {
            let entry = ix.table.entry_at(j);
            let seg: DocumentSegment = entry.1;
            if seg.length > dlen as u64 || seg.offset > dlen as u64 - seg.length {
                proof {
                    assert(!seg_ok(data@, (dec_index_exact(index_bytes@)->0)[j as int].1));
                }
                return Err(DungeonError::new("Segment lies outside the data file"));
            }
            let a: usize = seg.offset as usize;
            let b: usize = a + seg.length as usize;
            let section: &[u8] = &data.as_slice()[a..b];
            proof {
                assert(section@ =~= seg_bytes(data@, seg));
            }
            match decode_tsv_exact(section) {
                Some(_) => {
                },
                None => {
                    proof {
                        assert(!seg_ok(data@, (dec_index_exact(index_bytes@)->0)[j as int].1));
                    }
                    return Err(DungeonError::new("Could not parse value"));
                },
            }
            j = j + 1;
        }
        Ok(SSTable { base_dir, file_name, id, index: ix, data })
    }
}

/// Whether a run's two files are coherent: the name is a decimal id that
/// fits the word, the index decodes with strictly ascending keys, and
/// every segment lies in the data file and decodes.
pub open spec fn run_file_ok(file_name: Seq<char>, index_bytes: Seq<u8>, data: Seq<u8>) -> bool {
    &&& digits_value(file_name) is Some
    &&& digits_value(file_name)->0 <= 0xffffffffffffffffffffffffffffffff
    &&& dec_index_exact(index_bytes) is Some
    &&& keys_sorted(dec_index_exact(index_bytes)->0)
    &&& forall|j: int|
        0 <= j < (dec_index_exact(index_bytes)->0).len() ==> seg_ok(
            data,
            (#[trigger] (dec_index_exact(index_bytes)->0)[j]).1,
        )
}

} // verus!

verus! {

impl SSTable {
    /// Builds a run from an ordered entry stream and yields the run
    /// together with the bytes of its two files held in memory. The
    /// stream must ascend by key; a key may repeat, as it does when two
    /// runs are merged, and repeats are collapsed by timestamp with ties
    /// falling to the later entry. Fails only when the file name is not
    /// a decimal instant.
    pub fn new(base_dir: String, file_name: String, table: Vec<(String, TimeStampedValue)>) -> (r:
        DungeonResult<SSTable>)
        requires
            keys_sorted_le(crate::value::pairs_view(table@)),
        ensures
            match r {
                Ok(t) => {
                    &&& t.wf()
                    &&& t.run_entries() == collapse(crate::value::pairs_view(table@))
                    &&& t.base_dir@ == base_dir@
                    &&& t.file_name@ == file_name@
                    &&& Some(t.id as nat) == digits_value(file_name@)
                    &&& segments_contiguous(t.index.entries_view(), t.data@.len())
                },
                Err(_) => digits_value(file_name@) is None || digits_value(file_name@)->0
                    > 0xffffffffffffffffffffffffffffffff,
            },
    {
        let ghost v = crate::value::pairs_view(table@);
        let id: u128 = match parse_run_id(file_name.as_str()) {
            Some(id) => id,
            None => {
                return Err(DungeonError::new("Run name is not a decimal instant"));
            },
        };
        let mut index = Index::new();
        let mut data: Vec<u8> = Vec::new();
        let n: usize = table.len();
        let mut i: usize = 0;
        proof {
            assert(v.skip(0) =~= v);
            assert(run_map(index.entries_view(), data@) =~= Seq::<(Seq<char>, TsvView)>::empty());
            assert(run_map(index.entries_view(), data@) + collapse(v.skip(0)) =~= collapse(v));
            assert(segments_contiguous(index.entries_view(), data@.len()));
        }
        while i < n
            invariant
                i <= n,
                n == v.len(),
                v == crate::value::pairs_view(table@),
                keys_sorted_le(v),
                index.wf(),
                run_map(index.entries_view(), data@) + collapse(v.skip(i as int)) == collapse(v),
                segments_contiguous(index.entries_view(), data@.len()),
                forall|l: int|
                    0 <= l < index.entries_view().len() ==> seg_ok(
                        data@,
                        (#[trigger] index.entries_view()[l]).1,
                    ),
                forall|l: int, m: int|
                    0 <= l < index.entries_view().len() && i <= m < n ==> lex_lt(
                        (#[trigger] index.entries_view()[l]).0,
                        (#[trigger] v[m]).0,
                    ),
            decreases n - i,
        {
            let k: String = table[i].0.clone();
            let mut cur: TimeStampedValue = table[i].1.duplicate();
            let mut j: usize = i + 1;
            let mut done = false;
            proof {
                assert(v[i as int] == (table@[i as int].0@, table@[i as int].1@));
                assert(v.skip(i as int)[0] == v[i as int]);
                assert(seq![(k@, cur@)] + v.skip(j as int) =~= v.skip(i as int));
            }
            while j < n && !done
                invariant
                    i < j <= n,
                    n == v.len(),
                    v == crate::value::pairs_view(table@),
                    keys_sorted_le(v),
                    k@ == v[i as int].0,
                    collapse(seq![(k@, cur@)] + v.skip(j as int)) == collapse(v.skip(i as int)),
                    forall|m: int| i <= m < j ==> (#[trigger] v[m]).0 == k@,
                    done ==> j < n && v[j as int].0 != k@,
                decreases n - j + (if done {
                    0int
                } else {
                    1int
                }),
            {
                match key_compare(table[j].0.as_str(), k.as_str()) {
                    KeyOrder::Equal => {
                        let ghost curv = cur@;
                        let ghost s = seq![(k@, curv)] + v.skip(j as int);
                        proof {
                            assert(v[j as int] == (table@[j as int].0@, table@[j as int].1@));
                            assert(s[0] == (k@, curv));
                            assert(s[1] == v[j as int]);
                            assert(s[0].0 == s[1].0);
                            lemma_collapse_cons_pair(s);
                            assert(s.skip(2) =~= v.skip(j + 1));
                        }
                        if table[j].1.timestamp >= cur.timestamp {
                            cur = table[j].1.duplicate();
                        }
                        proof {
                            assert(pair_winner(s[0], s[1]).0 == k@);
                            assert(pair_winner(s[0], s[1]).1 == cur@);
                            assert(seq![pair_winner(s[0], s[1])] + s.skip(2) =~= seq![(k@, cur@)]
                                + v.skip(j + 1));
                        }
                        j = j + 1;
                    },
                    _ => {
                        proof {
                            assert(v[j as int] == (table@[j as int].0@, table@[j as int].1@));
                            assert(v[j as int].0 != k@) by {
                                lemma_lex_trichotomy(table@[j as int].0@, k@);
                            }
                        }
                        done = true;
                    },
                }
            }
            // cur is the surviving entry for this key; write it
            let off: usize = data.len();
            let mut bytes: Vec<u8> = encode_tsv_vec(&cur);
            let blen: usize = bytes.len();
            let ghost old_data = data@;
            let ghost old_entries = index.entries_view();
            data.append(&mut bytes);
            let seg = DocumentSegment { offset: off as u64, length: blen as u64 };
            proof {
                assert forall|l: int|
                    0 <= l < old_entries.len() implies lex_lt(
                    (#[trigger] old_entries[l]).0,
                    k@,
                ) by {
                    assert(lex_lt(old_entries[l].0, v[i as int].0));
                }
            }
            index.table.push_max(k, seg);
            proof {
                let new_entries = index.entries_view();
                assert(new_entries =~= old_entries.push((k@, seg)));
                // old segments are untouched by the append
                assert forall|l: int|
                    0 <= l < old_entries.len() implies seg_bytes(data@, (
                    #[trigger] old_entries[l]).1) == seg_bytes(old_data, old_entries[l].1) by {
                    assert(seg_bytes(data@, old_entries[l].1) =~= seg_bytes(
                        old_data,
                        old_entries[l].1,
                    ));
                }
                // the new segment holds exactly the winner's encoding
                assert(seg_bytes(data@, seg) =~= enc_tsv(cur@));
                lemma_tsv_round_trip(cur@);
                assert(seg_ok(data@, seg));
                assert forall|l: int|
                    0 <= l < new_entries.len() implies seg_ok(
                    data@,
                    (#[trigger] new_entries[l]).1,
                ) by {
                    if l < old_entries.len() {
                        assert(new_entries[l] == old_entries[l]);
                        assert(seg_ok(old_data, old_entries[l].1));
                    }
                }
                // the appended segment starts where the data ended
                assert forall|l: int|
                    0 <= l < new_entries.len() implies (#[trigger] new_entries[l]).1.offset
                    == segs_prefix_len(new_entries, l) by {
                    lemma_segs_prefix_push(old_entries, (k@, seg), l);
                    if l < old_entries.len() {
                        assert(new_entries[l] == old_entries[l]);
                    } else {
                        assert(new_entries[l].1 == seg);
                    }
                }
                lemma_segs_prefix_push(old_entries, (k@, seg), old_entries.len() as int);
                assert(segs_prefix_len(new_entries, new_entries.len() as int) == segs_prefix_len(
                    old_entries,
                    old_entries.len() as int,
                ) + seg.length);
                assert(segments_contiguous(new_entries, data@.len()));
                // the denoted entries gain exactly the winner
                assert(run_map(new_entries, data@) =~= run_map(old_entries, old_data).push(
                    (k@, cur@),
                ));
                // and the collapse accounting moves from i to j
                if j < n {
                    assert(v.skip(j as int)[0] == v[j as int]);
                    assert(v[j as int].0 != k@);
                } else {
                    assert(v.skip(j as int) =~= Seq::<(Seq<char>, TsvView)>::empty());
                }
                lemma_collapse_cons_distinct((k@, cur@), v.skip(j as int));
                assert(collapse(v.skip(i as int)) == seq![(k@, cur@)] + collapse(
                    v.skip(j as int),
                ));
                assert(run_map(old_entries, old_data) + collapse(v.skip(i as int))
                    =~= run_map(new_entries, data@) + collapse(v.skip(j as int)));
                // every remaining key lies strictly above this one
                assert forall|m: int| j <= m < n implies lex_lt(k@, (#[trigger] v[m]).0) by {
                    assert(!lex_lt(v[j as int].0, v[i as int].0));
                    lemma_lex_trichotomy(v[j as int].0, k@);
                    if m > j {
                        assert(!lex_lt(v[m].0, v[j as int].0));
                        lemma_lex_trichotomy(v[m].0, v[j as int].0);
                        if v[m].0 != v[j as int].0 {
                            lemma_lex_transitive(k@, v[j as int].0, v[m].0);
                        }
                    }
                }
                assert forall|l: int, m: int|
                    0 <= l < new_entries.len() && j <= m < n implies lex_lt(
                    (#[trigger] new_entries[l]).0,
                    (#[trigger] v[m]).0,
                ) by {
                    if l < old_entries.len() {
                        assert(lex_lt(old_entries[l].0, v[i as int].0));
                        lemma_lex_transitive(old_entries[l].0, k@, v[m].0);
                    }
                }
            }
            i = j;
        }
        proof {
            assert(v.skip(n as int) =~= Seq::<(Seq<char>, TsvView)>::empty());
            assert(collapse(Seq::<(Seq<char>, TsvView)>::empty())
                =~= Seq::<(Seq<char>, TsvView)>::empty());
            assert(run_map(index.entries_view(), data@) + collapse(v.skip(n as int)) =~= run_map(
                index.entries_view(),
                data@,
            ));
        }
        Ok(SSTable { base_dir, file_name, id, index, data })
    }
}

} // verus!

verus! {

impl SSTable {
    /// Reads every entry of the run, in ascending key order.
    pub fn all_entries(&self) -> (r: Vec<(String, TimeStampedValue)>)
        requires
            self.wf(),
        ensures
            crate::value::pairs_view(r@) == self.run_entries(),
    {
        let n: usize = self.index.len();
        let dlen: usize = self.data.len();
        let mut out: Vec<(String, TimeStampedValue)> = Vec::new();
        let mut i: usize = 0;
        proof {
            lemma_run_map_keys(self.index.entries_view(), self.data@);
            assert(crate::value::pairs_view(out@) =~= self.run_entries().take(0));
        }
        while i < n
            invariant
                i <= n,
                n == self.index.entries_view().len(),
                dlen == self.data@.len(),
                self.wf(),
                crate::value::pairs_view(out@) == self.run_entries().take(i as int),
            decreases n - i,
        {
            let entry = self.index.table.entry_at(i);
            let seg: DocumentSegment = entry.1;
            proof {
                assert(seg_ok(self.data@, self.index.entries_view()[i as int].1));
            }
            let a: usize = seg.offset as usize;
            let b: usize = a + seg.length as usize;
            let section: &[u8] = &self.data.as_slice()[a..b];
            proof {
                assert(section@ =~= seg_bytes(self.data@, seg));
            }
            match decode_tsv_exact(section) {
                Some(tv) => {
                    let key: String = entry.0.clone();
                    let ghost old_out = out@;
                    let ghost tvv = tv@;
                    let ghost keyv = key@;
                    out.push((key, tv));
                    proof {
                        assert(self.run_entries()[i as int] == (
                            self.index.entries_view()[i as int].0,
                            dec_tsv_exact(seg_bytes(self.data@, seg))->0,
                        ));
                        assert(crate::value::pairs_view(old_out).len() == old_out.len());
                        assert(old_out.len() == i);
                        let pv = crate::value::pairs_view(out@);
                        assert forall|l: int| 0 <= l < i + 1 implies pv[l]
                            == self.run_entries().take(i + 1)[l] by {
                            if l < i {
                                assert(out@[l] == old_out[l]);
                                assert(pv[l] == crate::value::pairs_view(old_out)[l]);
                                assert(crate::value::pairs_view(old_out)[l]
                                    == self.run_entries().take(i as int)[l]);
                            } else {
                                assert(pv[l] == (keyv, tvv));
                            }
                        }
                        assert(crate::value::pairs_view(out@) =~= self.run_entries().take(i + 1));
                    }
                },
                None => {
                    proof {
                        assert(false);
                    }
                },
            }
            i = i + 1;
        }
        proof {
            assert(self.run_entries().take(n as int) =~= self.run_entries());
        }
        out
    }

    /// Merges this run with another into one new run: an ordered union of
    /// the two entry sets in which, of two entries under one key, the
    /// greater timestamp survives and a full tie falls to the other run.
    /// The caller installs the result and disposes of both inputs.
    pub fn merge(&self, other: &Self, new_file_name: String) -> (r: DungeonResult<SSTable>)
        requires
            self.wf(),
            other.wf(),
        ensures
            match r {
                Ok(t) => {
                    &&& t.wf()
                    &&& t.base_dir@ == self.base_dir@
                    &&& t.file_name@ == new_file_name@
                    &&& Some(t.id as nat) == digits_value(new_file_name@)
                    &&& segments_contiguous(t.index.entries_view(), t.data@.len())
                    &&& t.run_entries() == collapse(
                        merge_seq(self.run_entries(), other.run_entries()),
                    )
                    &&& forall|k: Seq<char>|
                        #[trigger] t.spec_get(k) == lww_pick(
                            self.spec_get(k),
                            other.spec_get(k),
                        )
                },
                Err(_) => digits_value(new_file_name@) is None || digits_value(new_file_name@)->0
                    > 0xffffffffffffffffffffffffffffffff,
            },
    {
        let a: Vec<(String, TimeStampedValue)> = self.all_entries();
        let b: Vec<(String, TimeStampedValue)> = other.all_entries();
        proof {
            lemma_run_map_keys(self.index.entries_view(), self.data@);
            lemma_run_map_keys(other.index.entries_view(), other.data@);
        }
        let merged: Vec<(String, TimeStampedValue)> = merge_entries(a, b);
        proof {
            lemma_merge_seq_sorted_le(self.run_entries(), other.run_entries());
        }
        let built = SSTable::new(self.base_dir.clone(), new_file_name, merged);
        match built {
            Ok(t) => {
                proof {
                    lemma_merge_lww(self.run_entries(), other.run_entries());
                }
                Ok(t)
            },
            Err(e) => Err(e),
        }
    }
}

/// Interleaves two runs' entry lists into the merge order: ascending by
/// key, and on a key tie the first list's entry first, so that the
/// build's collapse hands the win to the second list.
fn merge_entries(a: Vec<(String, TimeStampedValue)>, b: Vec<(String, TimeStampedValue)>) -> (r: Vec<
    (String, TimeStampedValue),
>)
    ensures
        crate::value::pairs_view(r@) == merge_seq(
            crate::value::pairs_view(a@),
            crate::value::pairs_view(b@),
        ),
{
    let ghost av = crate::value::pairs_view(a@);
    let ghost bv = crate::value::pairs_view(b@);
    let alen: usize = a.len();
    let blen: usize = b.len();
    let mut out: Vec<(String, TimeStampedValue)> = Vec::new();
    let mut i: usize = 0;
    let mut j: usize = 0;
    proof {
        assert(av.skip(0) =~= av);
        assert(bv.skip(0) =~= bv);
        assert(crate::value::pairs_view(out@) =~= Seq::<(Seq<char>, TsvView)>::empty());
        assert(crate::value::pairs_view(out@) + merge_seq(av.skip(0), bv.skip(0)) =~= merge_seq(
            av,
            bv,
        ));
    }
    while i < alen || j < blen
        invariant
            i <= alen,
            j <= blen,
            alen == av.len(),
            blen == bv.len(),
            av == crate::value::pairs_view(a@),
            bv == crate::value::pairs_view(b@),
            crate::value::pairs_view(out@) + merge_seq(av.skip(i as int), bv.skip(j as int))
                == merge_seq(av, bv),
        decreases alen - i + blen - j,
    {
        let take_b: bool = if i >= alen {
            true
        } else if j >= blen {
            false
        } else {
            match key_compare(b[j].0.as_str(), a[i].0.as_str()) {
                KeyOrder::Less => true,
                _ => false,
            }
        };
        let ghost asuf = av.skip(i as int);
        let ghost bsuf = bv.skip(j as int);
        if take_b {
            let key: String = b[j].0.clone();
            let tv: TimeStampedValue = b[j].1.duplicate();
            out.push((key, tv));
            proof {
                assert(bsuf[0] == bv[j as int]);
                assert(bv[j as int] == (b@[j as int].0@, b@[j as int].1@));
                if i < alen {
                    assert(asuf[0] == av[i as int]);
                    assert(av[i as int] == (a@[i as int].0@, a@[i as int].1@));
                    assert(lex_lt(bsuf[0].0, asuf[0].0));
                    assert(merge_seq(asuf, bsuf) == seq![bsuf[0]] + merge_seq(
                        asuf,
                        bsuf.drop_first(),
                    ));
                } else {
                    assert(asuf =~= Seq::<(Seq<char>, TsvView)>::empty());
                    assert(merge_seq(asuf, bsuf) == bsuf);
                    assert(bsuf =~= seq![bsuf[0]] + bsuf.drop_first());
                    assert(merge_seq(asuf, bsuf.drop_first()) == bsuf.drop_first());
                }
                assert(bsuf.drop_first() =~= bv.skip(j + 1));
                assert(crate::value::pairs_view(out@) =~= crate::value::pairs_view(
                    old_of(out@),
                ).push((bv[j as int].0, bv[j as int].1)));
            }
            j = j + 1;
        } else {
            let key: String = a[i].0.clone();
            let tv: TimeStampedValue = a[i].1.duplicate();
            out.push((key, tv));
            proof {
                assert(asuf[0] == av[i as int]);
                assert(av[i as int] == (a@[i as int].0@, a@[i as int].1@));
                if j < blen {
                    assert(bsuf[0] == bv[j as int]);
                    assert(bv[j as int] == (b@[j as int].0@, b@[j as int].1@));
                    assert(!lex_lt(bsuf[0].0, asuf[0].0));
                    assert(merge_seq(asuf, bsuf) == seq![asuf[0]] + merge_seq(
                        asuf.drop_first(),
                        bsuf,
                    ));
                } else {
                    assert(bsuf =~= Seq::<(Seq<char>, TsvView)>::empty());
                    assert(merge_seq(asuf, bsuf) == asuf);
                    assert(asuf =~= seq![asuf[0]] + asuf.drop_first());
                    assert(merge_seq(asuf.drop_first(), bsuf) == asuf.drop_first());
                }
                assert(asuf.drop_first() =~= av.skip(i + 1));
            }
            i = i + 1;
        }
    }
    proof {
        assert(av.skip(alen as int) =~= Seq::<(Seq<char>, TsvView)>::empty());
        assert(bv.skip(blen as int) =~= Seq::<(Seq<char>, TsvView)>::empty());
        assert(merge_seq(av.skip(alen as int), bv.skip(blen as int))
            =~= Seq::<(Seq<char>, TsvView)>::empty());
        assert(crate::value::pairs_view(out@) + merge_seq(
            av.skip(alen as int),
            bv.skip(blen as int),
        ) =~= crate::value::pairs_view(out@));
    }
    out
}


/// The sequence before the most recent push.
spec fn old_of(s: Seq<(String, TimeStampedValue)>) -> Seq<(String, TimeStampedValue)> {
    s.drop_last()
}

} // verus!

verus! {

/// Reopen closure: the two files a well-formed run is persisted as — its
/// encoded index under its name, beside its data bytes — are coherent
/// and decode back to exactly the run's index, so an engine opened over
/// them reads every key as the run did.
pub proof fn lemma_run_files_round_trip(t: SSTable)
    requires
        t.wf(),
        t.index.entries_view().len() < pow256(8),
        forall|i: int|
            0 <= i < t.index.entries_view().len() ==> (#[trigger] t.index.entries_view()[
                i
            ]).0.len() < pow256(8),
    ensures
        run_file_ok(t.file_name@, enc_index(t.index.entries_view()), t.data@),
        dec_index_exact(enc_index(t.index.entries_view())) == Some(t.index.entries_view()),
{
    lemma_index_round_trip(t.index.entries_view());
}

} // verus!
