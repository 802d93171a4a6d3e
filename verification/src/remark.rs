//! Record extraction from tagged remark payloads.
//!
//! A record remark is the payload of a plain signed `System::remark`
//! call, split on the fixed `::` delimiter into tag, genre, title and
//! content; a record is accepted only when the tag equals the fixed
//! sentinel.  A malformed split is a per-record decode failure: the
//! record is skipped, the block still counts as indexed.

use vstd::prelude::*;

verus! {

/// Split a byte string on the two-byte `::` delimiter, leftmost match
/// first; overlapping matches are not re-used.
pub open spec fn split_sep(s: Seq<u8>) -> Seq<Seq<u8>>
    decreases s.len(),
{
    if s.len() >= 2 && s[0] == 58 && s[1] == 58 {
        seq![Seq::<u8>::empty()] + split_sep(s.skip(2))
    } else if s.len() == 0 {
        seq![s]
    } else {
        let rest = split_sep(s.drop_first());
        seq![seq![s[0]] + rest[0]] + rest.drop_first()
    }
}

/// A split always yields at least one component.
pub proof fn lemma_split_nonempty(s: Seq<u8>)
    ensures
        split_sep(s).len() >= 1,
    decreases s.len(),
{
    if s.len() >= 2 && s[0] == 58 && s[1] == 58 {
        lemma_split_nonempty(s.skip(2));
    } else if s.len() > 0 {
        lemma_split_nonempty(s.drop_first());
    }
}

/// A partly assembled split: the piece collected so far joined onto
/// the components still to come.
pub open spec fn shift(c: Seq<u8>, parts: Seq<Seq<u8>>) -> Seq<Seq<u8>> {
    seq![c + parts[0]] + parts.drop_first()
}

/// Split a remark payload on the `::` delimiter.
pub fn split_remark(s: &Vec<u8>) -> (r: Vec<Vec<u8>>)
    ensures
        r@.map_values(|p: Vec<u8>| p@) == split_sep(s@),
        r@.len() >= 1,
{
    let mut finished: Vec<Vec<u8>> = Vec::new();
    let mut cur: Vec<u8> = Vec::new();
    let mut i: usize = 0;
    proof {
        assert(s@.skip(0) =~= s@);
        lemma_split_nonempty(s@);
        assert(Seq::<u8>::empty() + split_sep(s@)[0] =~= split_sep(s@)[0]);
        assert(shift(cur@, split_sep(s@)) =~= split_sep(s@));
        assert(finished@.map_values(|p: Vec<u8>| p@) + shift(cur@, split_sep(s@)) =~= split_sep(
            s@,
        ));
    }
    while i < s.len()
        invariant
            i <= s@.len(),
            split_sep(s@) =~= finished@.map_values(|p: Vec<u8>| p@) + shift(
                cur@,
                split_sep(s@.skip(i as int)),
            ),
        decreases s@.len() - i,
    {
        let ghost tail = s@.skip(i as int);
        if i + 1 < s.len() && s[i] == 58 && s[i + 1] == 58 {
            let ghost fin0 = finished@;
            let ghost cur0 = cur@;
            finished.push(cur);
            cur = Vec::new();
            proof {
                assert(tail.len() >= 2 && tail[0] == 58 && tail[1] == 58);
                assert(tail.skip(2) =~= s@.skip(i + 2));
                lemma_split_nonempty(s@.skip(i + 2));
                let rest2 = split_sep(s@.skip(i + 2));
                assert(split_sep(tail) == seq![Seq::<u8>::empty()] + rest2);
                assert(shift(cur0, split_sep(tail)) =~= seq![cur0] + rest2) by {
                    assert(cur0 + (seq![Seq::<u8>::empty()] + rest2)[0] =~= cur0);
                    assert((seq![Seq::<u8>::empty()] + rest2).drop_first() =~= rest2);
                }
                assert(finished@.map_values(|p: Vec<u8>| p@) =~= fin0.map_values(
                    |p: Vec<u8>| p@,
                ).push(cur0));
                assert(shift(cur@, rest2) =~= seq![rest2[0]] + rest2.drop_first()) by {
                    assert(cur@ + rest2[0] =~= rest2[0]);
                }
                assert(shift(cur@, rest2) =~= rest2);
                assert(finished@.map_values(|p: Vec<u8>| p@) + shift(cur@, rest2)
                    =~= fin0.map_values(|p: Vec<u8>| p@) + shift(cur0, split_sep(tail)));
            }
            i = i + 2;
        } else {
            let ghost cur0 = cur@;
            cur.push(s[i]);
            proof {
                assert(tail.len() >= 1 && tail[0] == s@[i as int]);
                assert(!(tail.len() >= 2 && tail[0] == 58 && tail[1] == 58));
                assert(tail.drop_first() =~= s@.skip(i + 1));
                lemma_split_nonempty(s@.skip(i + 1));
                let rest = split_sep(s@.skip(i + 1));
                assert(split_sep(tail) == seq![seq![tail[0]] + rest[0]] + rest.drop_first());
                assert(shift(cur0, split_sep(tail)) =~= shift(cur@, rest)) by {
                    assert(cur0 + (seq![tail[0]] + rest[0]) =~= cur@ + rest[0]);
                    assert((seq![seq![tail[0]] + rest[0]] + rest.drop_first()).drop_first()
                        =~= rest.drop_first());
                }
            }
            i = i + 1;
        }
    }
    proof {
        assert(s@.skip(i as int) =~= Seq::<u8>::empty());
        assert(split_sep(s@.skip(i as int)) == seq![s@.skip(i as int)]);
    }
    let ghost fin0 = finished@;
    finished.push(cur);
    proof {
        assert(shift(cur@, seq![Seq::<u8>::empty()]) =~= seq![cur@]);
        assert(finished@.map_values(|p: Vec<u8>| p@) =~= fin0.map_values(|p: Vec<u8>| p@).push(
            cur@,
        ));
        assert(finished@.map_values(|p: Vec<u8>| p@) =~= split_sep(s@));
    }
    finished
}

/// The sentinel tag that marks a record remark.
pub open spec fn feather_tag() -> Seq<u8> {
    seq![70u8, 69u8, 65u8, 84u8, 72u8, 69u8, 82u8]
}

/// Whether two byte strings hold the same bytes.
pub fn bytes_eq(a: &Vec<u8>, b: &Vec<u8>) -> (r: bool)
    ensures
        r <==> a@ == b@,
{
    if a.len() != b.len() {
        return false;
    }
    let mut i: usize = 0;
    while i < a.len()
        invariant
            a@.len() == b@.len(),
            i <= a@.len(),
            forall|j: int| 0 <= j < i ==> a@[j] == b@[j],
        decreases a@.len() - i,
    {
        if a[i] != b[i] {
            return false;
        }
        i = i + 1;
    }
    proof {
        assert(a@ =~= b@);
    }
    true
}

/// Parse a remark payload into genre, title and content.  The payload
/// is accepted only when it splits into at least four components and
/// the first equals the sentinel tag; anything else is a per-record
/// decode failure.
pub fn parse_remark(payload: &Vec<u8>) -> (r: Option<(Vec<u8>, Vec<u8>, Vec<u8>)>)
    ensures
        r is Some <==> (split_sep(payload@).len() >= 4 && split_sep(payload@)[0] == feather_tag()),
        r matches Some(p) ==> p.0@ == split_sep(payload@)[1] && p.1@ == split_sep(payload@)[2]
            && p.2@ == split_sep(payload@)[3],
{
    let mut parts = split_remark(payload);
    let mut tag: Vec<u8> = Vec::new();
    tag.push(70);
    tag.push(69);
    tag.push(65);
    tag.push(84);
    tag.push(72);
    tag.push(69);
    tag.push(82);
    proof {
        assert(tag@ =~= feather_tag());
        assert(parts@[0]@ == split_sep(payload@)[0]);
    }
    if !bytes_eq(&parts[0], &tag) {
        return None;
    }
    if parts.len() < 4 {
        return None;
    }
    proof {
        assert(parts@[1]@ == split_sep(payload@)[1]);
        assert(parts@[2]@ == split_sep(payload@)[2]);
        assert(parts@[3]@ == split_sep(payload@)[3]);
    }
    let content = parts.remove(3);
    let title = parts.remove(2);
    let genre = parts.remove(1);
    Some((genre, title, content))
}

/// Copy a byte string.
pub fn copy_bytes(a: &Vec<u8>) -> (r: Vec<u8>)
    ensures
        r@ == a@,
{
    let mut r: Vec<u8> = Vec::new();
    let mut i: usize = 0;
    while i < a.len()
        invariant
            i <= a@.len(),
            r@ == a@.take(i as int),
        decreases a@.len() - i,
    {
        r.push(a[i]);
        proof {
            assert(r@ =~= a@.take(i + 1));
        }
        i = i + 1;
    }
    proof {
        assert(a@.take(i as int) =~= a@);
    }
    r
}

/// The pallet whose remark calls carry records.
pub open spec fn system_name() -> Seq<u8> {
    seq![83u8, 121u8, 115u8, 116u8, 101u8, 109u8]
}

/// The call variant whose payload is a remark.
pub open spec fn remark_name() -> Seq<u8> {
    seq![114u8, 101u8, 109u8, 97u8, 114u8, 107u8]
}

/// What the node reports of one extrinsic, reduced to plain values:
/// pallet and call names as bytes, the signer's 32-byte account
/// identifier when the extrinsic is signed, and the raw remark payload
/// when the call carries one.
pub struct ExtrinsicInfo {
    pub pallet: Vec<u8>,
    pub variant: Vec<u8>,
    pub account_id: Option<Vec<u8>>,
    pub remark: Option<Vec<u8>>,
}

/// One extracted record: the decoded content of a tagged remark,
/// keyed by block number, in-block extrinsic index and account.
pub struct Feather {
    pub block_number: u32,
    pub index: u16,
    pub account_id: Vec<u8>,
    pub remark: Vec<u8>,
}

impl Feather {
    /// The record as plain values.
    pub open spec fn tup(self) -> (u32, u16, Seq<u8>, Seq<u8>) {
        (self.block_number, self.index, self.account_id@, self.remark@)
    }
}

/// Whether one extrinsic yields a record: a signed System::remark
/// whose payload splits into at least four components under the
/// sentinel tag.
pub open spec fn is_record(xt: ExtrinsicInfo) -> bool {
    &&& xt.pallet@ == system_name()
    &&& xt.variant@ == remark_name()
    &&& xt.account_id matches Some(a) && a@.len() == 32
    &&& xt.remark matches Some(p) && split_sep(p@).len() >= 4 && split_sep(p@)[0] == feather_tag()
}

/// The record yielded by one extrinsic.
pub open spec fn record_tup(b: u32, i: u16, xt: ExtrinsicInfo) -> (u32, u16, Seq<u8>, Seq<u8>) {
    (b, i, xt.account_id->Some_0@, xt.remark->Some_0@)
}

/// The records of a block's extrinsics from position `i` on, each
/// keyed by its extrinsic's position.
pub open spec fn records_from(b: u32, xts: Seq<ExtrinsicInfo>, i: int) -> Seq<
    (u32, u16, Seq<u8>, Seq<u8>),
>
    decreases xts.len() - i,
{
    if i < 0 || i >= xts.len() {
        Seq::empty()
    } else if is_record(xts[i]) {
        seq![record_tup(b, i as u16, xts[i])] + records_from(b, xts, i + 1)
    } else {
        records_from(b, xts, i + 1)
    }
}

/// Scan one block's extrinsics for record remarks.  Each signed
/// System::remark whose payload carries the sentinel tag and splits
/// into at least four components yields one record; a malformed
/// payload only skips that record.  Returns the records and the number
/// of extrinsics scanned.
pub fn scan_block(block_number: u32, extrinsics: &Vec<ExtrinsicInfo>) -> (r: (Vec<Feather>, u32))
    requires
        extrinsics@.len() <= u16::MAX,
    ensures
        r.0@.map_values(|f: Feather| f.tup()) == records_from(block_number, extrinsics@, 0),
        r.1 == extrinsics@.len(),
{
    let mut system: Vec<u8> = Vec::new();
    system.push(83);
    system.push(121);
    system.push(115);
    system.push(116);
    system.push(101);
    system.push(109);
    let mut remark_variant: Vec<u8> = Vec::new();
    remark_variant.push(114);
    remark_variant.push(101);
    remark_variant.push(109);
    remark_variant.push(97);
    remark_variant.push(114);
    remark_variant.push(107);
    proof {
        assert(system@ =~= system_name());
        assert(remark_variant@ =~= remark_name());
    }
    let mut found: Vec<Feather> = Vec::new();
    let mut idx: usize = 0;
    while idx < extrinsics.len()
        invariant
            idx <= extrinsics@.len(),
            extrinsics@.len() <= u16::MAX,
            system@ == system_name(),
            remark_variant@ == remark_name(),
            records_from(block_number, extrinsics@, 0) =~= found@.map_values(|f: Feather| f.tup())
                + records_from(block_number, extrinsics@, idx as int),
        decreases extrinsics@.len() - idx,
    {
        let ghost found0 = found@;
        let xt = &extrinsics[idx];
        let mut took: bool = false;
        if bytes_eq(&xt.pallet, &system) && bytes_eq(&xt.variant, &remark_variant) {
            if let Some(account) = &xt.account_id {
                if account.len() == 32 {
                    if let Some(payload) = &xt.remark {
                        if let Some(_fields) = parse_remark(payload) {
                            found.push(
                                Feather {
                                    block_number,
                                    index: idx as u16,
                                    account_id: copy_bytes(account),
                                    remark: copy_bytes(payload),
                                },
                            );
                            took = true;
                        }
                    }
                }
            }
        }
        proof {
            assert(took <==> is_record(extrinsics@[idx as int]));
            if took {
                assert(found@.map_values(|f: Feather| f.tup()) =~= found0.map_values(
                    |f: Feather| f.tup(),
                ).push(record_tup(block_number, idx as u16, extrinsics@[idx as int])));
            }
        }
        idx = idx + 1;
    }
    (found, extrinsics.len() as u32)
}

} // verus!
