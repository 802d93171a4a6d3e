//! Record persistence and the read-only query interface: persisted
//! span status, record lookup in descending block order, and store
//! size.

use vstd::prelude::*;

use crate::codec::{
    be32, be32_val, feather_key, lemma_be32_order, lemma_be32_roundtrip, lemma_be32_val_roundtrip,
    lemma_lex_irrefl, lemma_lex_max, lemma_lex_prefix, lemma_lex_same_prefix, lemma_lex_trans,
    lex_lt, u32_to_be, FeatherDbKey,
};
use crate::reconciler::{load_spans, spans_store_map};
use crate::remark::{
    bytes_eq, copy_bytes, is_record, records_from, scan_block, split_remark, split_sep,
    ExtrinsicInfo, Feather,
};
use crate::span::{spans_wf, Span};
use crate::store::{db_size_on_disk, tree_contents, tree_insert, tree_scan_to, Trees};
use crate::IndexError;

verus! {

/// A query request: one reply per request.
pub enum RequestMessage {
    /// The spans currently persisted.
    Status,
    /// Records at or below a block, newest first, optionally filtered
    /// by account and by genre, capped at a number of matches.
    GetFeathers { block_number: u32, limit: u32, account_id: Option<Vec<u8>>, genre: Option<
        Vec<u8>,
    > },
    /// Total on-disk byte size of the store.
    SizeOnDisk,
}

/// A query reply.
pub enum ResponseMessage {
    Status(Vec<Span>),
    Feathers(Vec<Feather>),
    SizeOnDisk(u64),
}

impl Feather {
    /// The record's store key.
    pub open spec fn key(self) -> Seq<u8> {
        feather_key(self.block_number, self.index, self.account_id@)
    }
}

/// The record store contents after appending records from position
/// `i` on.
pub open spec fn insert_records(
    m: Map<Seq<u8>, Seq<u8>>,
    fs: Seq<Feather>,
    i: int,
) -> Map<Seq<u8>, Seq<u8>>
    decreases fs.len() - i,
{
    if i < 0 || i >= fs.len() {
        m
    } else {
        insert_records(m.insert(fs[i].key(), fs[i].remark@), fs, i + 1)
    }
}

/// Append the records extracted from one block to the record store,
/// each under its 38-byte key with the raw payload as value.  Records
/// are append-only: nothing else of the store changes.
pub fn store_feathers(feather_db: &mut sled::Tree, feathers: &Vec<Feather>) -> (r: Result<
    u32,
    IndexError,
>)
    requires
        forall|j: int| 0 <= j < feathers@.len() ==> (#[trigger] feathers@[j]).account_id@.len()
            == 32,
        feathers@.len() <= u32::MAX,
    ensures
        r matches Ok(n) ==> n == feathers@.len() && tree_contents(*final(feather_db))
            == insert_records(tree_contents(*old(feather_db)), feathers@, 0),
        r is Err ==> r matches Err(IndexError::Sled(_)),
{
    let mut i: usize = 0;
    while i < feathers.len()
        invariant
            i <= feathers@.len(),
            forall|j: int| 0 <= j < feathers@.len() ==> (#[trigger] feathers@[j]).account_id@.len()
                == 32,
            insert_records(tree_contents(*old(feather_db)), feathers@, 0) == insert_records(
                tree_contents(*feather_db),
                feathers@,
                i as int,
            ),
        decreases feathers@.len() - i,
    {
        let f = &feathers[i];
        let db_key = FeatherDbKey {
            block_number: f.block_number,
            index: f.index,
            account_id: copy_bytes(&f.account_id),
        };
        let key = db_key.as_bytes();
        let value = copy_bytes(&f.remark);
        match tree_insert(feather_db, &key, &value) {
            Ok(()) => (),
            Err(e) => {
                return Err(IndexError::Sled(e));
            },
        }
        i = i + 1;
    }
    Ok(feathers.len() as u32)
}

/// The record store contents after appending records given as plain
/// tuples from position `i` on.
pub open spec fn insert_record_tups(
    m: Map<Seq<u8>, Seq<u8>>,
    rs: Seq<(u32, u16, Seq<u8>, Seq<u8>)>,
    i: int,
) -> Map<Seq<u8>, Seq<u8>>
    decreases rs.len() - i,
{
    if i < 0 || i >= rs.len() {
        m
    } else {
        insert_record_tups(m.insert(feather_key(rs[i].0, rs[i].1, rs[i].2), rs[i].3), rs, i + 1)
    }
}

/// Appending records and appending their plain tuples build the same
/// store contents.
pub proof fn lemma_insert_records_tups(m: Map<Seq<u8>, Seq<u8>>, fs: Seq<Feather>, i: int)
    ensures
        insert_records(m, fs, i) == insert_record_tups(
            m,
            fs.map_values(|f: Feather| f.tup()),
            i,
        ),
    decreases fs.len() - i,
{
    if 0 <= i < fs.len() {
        lemma_insert_records_tups(m.insert(fs[i].key(), fs[i].remark@), fs, i + 1);
    }
}

/// Index one block whose extrinsics have been fetched: extract the
/// tagged remark records and append them to the record store.  Returns
/// the block number, the extrinsic count and the record count.
pub fn index_block_records(
    feather_db: &mut sled::Tree,
    block_number: u32,
    extrinsics: &Vec<ExtrinsicInfo>,
) -> (r: Result<(u32, u32, u32), IndexError>)
    requires
        extrinsics@.len() <= u16::MAX,
    ensures
        r matches Ok(t) ==> {
            &&& t.0 == block_number
            &&& t.1 == extrinsics@.len()
            &&& t.2 == records_from(block_number, extrinsics@, 0).len()
            &&& tree_contents(*final(feather_db)) == insert_record_tups(
                tree_contents(*old(feather_db)),
                records_from(block_number, extrinsics@, 0),
                0,
            )
        },
        r is Err ==> r matches Err(IndexError::Sled(_)),
{
    let (feathers, extrinsic_count) = scan_block(block_number, extrinsics);
    proof {
        assert forall|j: int| 0 <= j < feathers@.len() implies (
        #[trigger] feathers@[j]).account_id@.len() == 32 by {
            assert(feathers@.map_values(|f: Feather| f.tup())[j] == records_from(
                block_number,
                extrinsics@,
                0,
            )[j]);
            lemma_records_wf(block_number, extrinsics@, 0, j);
        }
        lemma_insert_records_tups(tree_contents(*feather_db), feathers@, 0);
        lemma_records_len(block_number, extrinsics@, 0);
        assert(feathers@.len() == records_from(block_number, extrinsics@, 0).len());
    }
    let key_count = match store_feathers(feather_db, &feathers) {
        Ok(n) => n,
        Err(e) => {
            return Err(e);
        },
    };
    Ok((block_number, extrinsic_count, key_count))
}

/// A block yields at most one record per extrinsic.
pub proof fn lemma_records_len(b: u32, xts: Seq<ExtrinsicInfo>, i: int)
    requires
        0 <= i <= xts.len(),
    ensures
        records_from(b, xts, i).len() <= xts.len() - i,
    decreases xts.len() - i,
{
    if 0 <= i < xts.len() {
        lemma_records_len(b, xts, i + 1);
    }
}

/// Every record of a block names a 32-byte account.
pub proof fn lemma_records_wf(b: u32, xts: Seq<ExtrinsicInfo>, i: int, j: int)
    requires
        0 <= j < records_from(b, xts, i).len(),
    ensures
        records_from(b, xts, i)[j].2.len() == 32,
    decreases xts.len() - i,
{
    if 0 <= i < xts.len() {
        if is_record(xts[i]) {
            if j > 0 {
                lemma_records_wf(b, xts, i + 1, j - 1);
            }
        } else {
            lemma_records_wf(b, xts, i + 1, j);
        }
    }
}

/// Answer a status request: the list of persisted spans,
/// reconstructed from the span tree.
pub fn process_msg_status(span_db: &sled::Tree) -> (r: Result<ResponseMessage, IndexError>)
    ensures
        r matches Ok(m) ==> (m matches ResponseMessage::Status(v) && spans_wf(v@)
            && spans_store_map(v@) == tree_contents(*span_db)),
        r is Err ==> (r matches Err(IndexError::Sled(_)) || r matches Err(IndexError::ParseError)),
        forall|s: Seq<Span>|
            spans_wf(s) && tree_contents(*span_db) == spans_store_map(s) ==> !(r matches Err(
                IndexError::ParseError,
            )),
{
    let spans = match load_spans(span_db) {
        Ok(spans) => spans,
        Err(e) => {
            return Err(e);
        },
    };
    Ok(ResponseMessage::Status(spans))
}

/// Whether one stored record passes the account and genre filters of a
/// record query.
pub open spec fn entry_ok(
    k: Seq<u8>,
    v: Seq<u8>,
    account_id: Option<Vec<u8>>,
    genre: Option<Vec<u8>>,
) -> bool {
    &&& k.len() == 38
    &&& (account_id matches Some(a) ==> k.subrange(6, 38) == a@)
    &&& (genre matches Some(g) ==> split_sep(v).len() >= 2 && split_sep(v)[1] == g@)
}

/// Whether one stored record answers a record query: it passes the
/// filters and its block lies at or below the queried block.
pub open spec fn matches_query(
    k: Seq<u8>,
    v: Seq<u8>,
    block_number: u32,
    account_id: Option<Vec<u8>>,
    genre: Option<Vec<u8>>,
) -> bool {
    &&& entry_ok(k, v, account_id, genre)
    &&& be32_val(k.subrange(0, 4)) <= block_number
}

/// Decode one stored record and apply the account and genre filters.
/// A key of another shape is not a record and never matches; a record
/// whose value has too few components never matches a genre filter.
fn entry_matches(
    key_bytes: &Vec<u8>,
    value: &Vec<u8>,
    account_id: &Option<Vec<u8>>,
    genre: &Option<Vec<u8>>,
) -> (r: Option<FeatherDbKey>)
    ensures
        r is Some <==> entry_ok(key_bytes@, value@, *account_id, *genre),
        r matches Some(k) ==> k.wf() && key_bytes@ == feather_key(
            k.block_number,
            k.index,
            k.account_id@,
        ),
{
    let k = match FeatherDbKey::read_from_bytes(key_bytes) {
        Some(k) => k,
        None => {
            return None;
        },
    };
    proof {
        assert(key_bytes@.subrange(6, 38) =~= k.account_id@);
    }
    match account_id {
        Some(a) => {
            if !bytes_eq(&k.account_id, a) {
                return None;
            }
        },
        None => (),
    }
    match genre {
        Some(g) => {
            let parts = split_remark(value);
            if parts.len() < 2 {
                return None;
            }
            proof {
                assert(parts@[1]@ == split_sep(value@)[1]);
            }
            if !bytes_eq(&parts[1], g) {
                return None;
            }
        },
        None => (),
    }
    Some(k)
}

/// Answer a record query: scan the record range downward from the
/// queried block, keep the records that pass the optional account and
/// genre filters, and stop after `limit` matches.  The matches come
/// back newest first; when fewer than `limit` come back, they are all
/// the stored records that match.
#[verifier::rlimit(100)]
#[verifier::spinoff_prover]
pub fn process_msg_get_feathers(
    feathers_db: &sled::Tree,
    block_number: u32,
    limit: u32,
    account_id: Option<Vec<u8>>,
    genre: Option<Vec<u8>>,
) -> (r: Result<ResponseMessage, IndexError>)
    ensures
        r matches Ok(m) ==> (m matches ResponseMessage::Feathers(v) && {
            let contents = tree_contents(*feathers_db);
            &&& v@.len() <= limit
            &&& forall|j: int|
                0 <= j < v@.len() ==> {
                    let f = #[trigger] v@[j];
                    &&& f.account_id@.len() == 32
                    &&& contents.contains_key(f.key()) && contents[f.key()] == f.remark@
                    &&& f.block_number <= block_number
                    &&& (account_id matches Some(a) ==> f.account_id@ == a@)
                    &&& (genre matches Some(g) ==> split_sep(f.remark@).len() >= 2 && split_sep(
                        f.remark@,
                    )[1] == g@)
                }
            &&& forall|j1: int, j2: int|
                0 <= j1 < j2 < v@.len() ==> lex_lt(#[trigger] v@[j2].key(), #[trigger] v@[j1].key())
                    && v@[j2].block_number <= v@[j1].block_number
            &&& (v@.len() < limit ==> forall|k: Seq<u8>|
                #[trigger] contents.contains_key(k) && matches_query(
                    k,
                    contents[k],
                    block_number,
                    account_id,
                    genre,
                ) ==> exists|j: int| 0 <= j < v@.len() && (#[trigger] v@[j].key()) == k)
            &&& (v@.len() > 0 ==> forall|k: Seq<u8>|
                #[trigger] contents.contains_key(k) && matches_query(
                    k,
                    contents[k],
                    block_number,
                    account_id,
                    genre,
                ) && lex_lt(v@[v@.len() - 1].key(), k) ==> exists|j: int|
                    0 <= j < v@.len() && (#[trigger] v@[j].key()) == k)
        }),
        r is Err ==> r matches Err(IndexError::Sled(_)),
{
    let mut upper = u32_to_be(block_number);
    let mut pad: usize = 0;
    while pad < 34
        invariant
            pad <= 34,
            upper@ == be32(block_number) + Seq::new(pad as nat, |q: int| 0xFFu8),
        decreases 34 - pad,
    {
        upper.push(0xFF);
        proof {
            assert(upper@ =~= be32(block_number) + Seq::new((pad + 1) as nat, |q: int| 0xFFu8));
        }
        pad = pad + 1;
    }
    let ghost ff34 = Seq::new(34nat, |q: int| 0xFFu8);
    let pairs = match tree_scan_to(feathers_db, &upper) {
        Ok(pairs) => pairs,
        Err(e) => {
            return Err(IndexError::Sled(e));
        },
    };
    let ghost contents = tree_contents(*feathers_db);
    let mut out: Vec<Feather> = Vec::new();
    let mut i: usize = pairs.len();
    let ghost mut src: int = pairs@.len() as int;
    while i > 0 && out.len() < limit as usize
        invariant
            i <= pairs@.len(),
            out@.len() <= limit,
            upper@ == be32(block_number) + ff34,
            ff34 == Seq::new(34nat, |q: int| 0xFFu8),
            contents == tree_contents(*feathers_db),
            forall|p1: int, p2: int|
                0 <= p1 < p2 < pairs@.len() ==> lex_lt(
                    #[trigger] pairs@[p1].0@,
                    #[trigger] pairs@[p2].0@,
                ),
            forall|p: int|
                0 <= p < pairs@.len() ==> contents.contains_key(#[trigger] pairs@[p].0@)
                    && pairs@[p].1@ == contents[pairs@[p].0@] && !lex_lt(upper@, pairs@[p].0@),
            forall|j: int|
                0 <= j < out@.len() ==> {
                    let f = #[trigger] out@[j];
                    &&& f.account_id@.len() == 32
                    &&& contents.contains_key(f.key()) && contents[f.key()] == f.remark@
                    &&& f.block_number <= block_number
                    &&& (account_id matches Some(a) ==> f.account_id@ == a@)
                    &&& (genre matches Some(g) ==> split_sep(f.remark@).len() >= 2 && split_sep(
                        f.remark@,
                    )[1] == g@)
                },
            out@.len() > 0 ==> i <= src < pairs@.len() && out@.last().key() == pairs@[src].0@,
            forall|j1: int, j2: int|
                0 <= j1 < j2 < out@.len() ==> lex_lt(
                    #[trigger] out@[j2].key(),
                    #[trigger] out@[j1].key(),
                ),
            forall|p: int|
                i <= p < pairs@.len() && matches_query(
                    (#[trigger] pairs@[p].0@),
                    pairs@[p].1@,
                    block_number,
                    account_id,
                    genre,
                ) ==> exists|j: int| 0 <= j < out@.len() && (#[trigger] out@[j].key())
                    == pairs@[p].0@,
        decreases i,
    {
        i = i - 1;
        let ghost out0 = out@;
        let key_bytes = &pairs[i].0;
        let value = &pairs[i].1;
        match entry_matches(key_bytes, value, &account_id, &genre) {
            Some(k) => {
                proof {
                    // A well-shaped key at or below the scan bound has
                    // its block at or below the queried block.
                    lemma_be32_roundtrip(k.block_number);
                    lemma_be32_roundtrip(block_number);
                    if k.block_number > block_number {
                        lemma_be32_order(block_number, k.block_number);
                        assert(key_bytes@ =~= be32(k.block_number) + (key_bytes@.skip(4)));
                        lemma_lex_prefix(be32(block_number), be32(k.block_number), ff34,
                            key_bytes@.skip(4));
                        assert(lex_lt(upper@, key_bytes@));
                    }
                }
                let block = k.block_number;
                let index = k.index;
                out.push(
                    Feather {
                        block_number: block,
                        index,
                        account_id: k.account_id,
                        remark: copy_bytes(value),
                    },
                );
                proof {
                    let n0 = out0.len() as int;
                    assert(out@[n0].key() == pairs@[i as int].0@);
                    if n0 > 0 {
                        assert(lex_lt(pairs@[i as int].0@, pairs@[src].0@));
                    }
                    assert forall|j1: int, j2: int| 0 <= j1 < j2 < out@.len() implies lex_lt(
                        #[trigger] out@[j2].key(),
                        #[trigger] out@[j1].key(),
                    ) by {
                        if j2 == n0 {
                            assert(out@[j1].key() == out0[j1].key());
                            if j1 < n0 - 1 {
                                assert(lex_lt(out0[n0 - 1].key(), out0[j1].key()));
                                lemma_lex_trans(
                                    pairs@[i as int].0@,
                                    out0[n0 - 1].key(),
                                    out0[j1].key(),
                                );
                            }
                        }
                    }
                    src = i as int;
                    assert forall|p: int|
                        i <= p < pairs@.len() && matches_query(
                            (#[trigger] pairs@[p].0@),
                            pairs@[p].1@,
                            block_number,
                            account_id,
                            genre,
                        ) implies exists|j: int| 0 <= j < out@.len() && (#[trigger] out@[j].key())
                        == pairs@[p].0@ by {
                        if p == i {
                            assert(out@[n0].key() == pairs@[p].0@);
                        } else {
                            assert(exists|j: int|
                                0 <= j < out0.len() && (#[trigger] out0[j].key())
                                    == pairs@[p].0@);
                            let j0 = choose|j: int|
                                0 <= j < out0.len() && (#[trigger] out0[j].key())
                                    == pairs@[p].0@;
                            assert(out@[j0].key() == pairs@[p].0@);
                        }
                    }
                }
            },
            None => {
                proof {
                    assert(!entry_ok(pairs@[i as int].0@, pairs@[i as int].1@, account_id, genre));
                }
            },
        }
    }
    proof {
        // Every stored record that matches the query lies at or below
        // the scan bound, so the scan saw it.
        assert forall|k: Seq<u8>|
            #[trigger] contents.contains_key(k) && matches_query(
                k,
                contents[k],
                block_number,
                account_id,
                genre,
            ) implies !lex_lt(upper@, k) by {
            let kb = be32_val(k.subrange(0, 4));
            lemma_be32_val_roundtrip(k.subrange(0, 4));
            assert(k =~= k.subrange(0, 4) + k.skip(4));
            if kb == block_number {
                lemma_lex_same_prefix(be32(block_number), ff34, k.skip(4));
                lemma_lex_max(34nat, k.skip(4));
            } else {
                lemma_be32_roundtrip(block_number);
                lemma_lex_prefix(be32(block_number), k.subrange(0, 4), ff34, k.skip(4));
                lemma_be32_order(block_number, kb);
            }
        }
        // Newest first in store key order means newest first in block
        // order: the block number is the key's most significant part.
        assert forall|j1: int, j2: int| 0 <= j1 < j2 < out@.len() implies lex_lt(
            #[trigger] out@[j2].key(),
            #[trigger] out@[j1].key(),
        ) && out@[j2].block_number <= out@[j1].block_number by {
            if out@[j2].block_number > out@[j1].block_number {
                lemma_be32_roundtrip(out@[j1].block_number);
                lemma_be32_roundtrip(out@[j2].block_number);
                lemma_be32_order(out@[j2].block_number, out@[j1].block_number);
                lemma_lex_prefix(
                    be32(out@[j2].block_number),
                    be32(out@[j1].block_number),
                    out@[j2].key().skip(4),
                    out@[j1].key().skip(4),
                );
                assert(out@[j2].key() =~= be32(out@[j2].block_number) + out@[j2].key().skip(4));
                assert(out@[j1].key() =~= be32(out@[j1].block_number) + out@[j1].key().skip(4));
            }
        }
        // Even when the limit cut the walk short, everything above the
        // last returned key was already taken: the scan ran downward,
        // so a matching key above it lies in the processed range.
        if out@.len() > 0 {
            assert forall|k: Seq<u8>|
                #[trigger] contents.contains_key(k) && matches_query(
                    k,
                    contents[k],
                    block_number,
                    account_id,
                    genre,
                ) && lex_lt(out@[out@.len() - 1].key(), k) implies exists|j: int|
                0 <= j < out@.len() && (#[trigger] out@[j].key()) == k by {
                assert(!lex_lt(upper@, k));
                assert(exists|p: int| 0 <= p < pairs@.len() && (#[trigger] pairs@[p].0@) == k);
                let p = choose|p: int| 0 <= p < pairs@.len() && (#[trigger] pairs@[p].0@) == k;
                assert(out@[out@.len() - 1].key() == pairs@[src].0@);
                if p < src {
                    assert(lex_lt(pairs@[p].0@, pairs@[src].0@));
                    lemma_lex_trans(pairs@[src].0@, pairs@[p].0@, pairs@[src].0@);
                    lemma_lex_irrefl(pairs@[src].0@);
                }
                if p == src {
                    lemma_lex_irrefl(k);
                }
                assert(p > src);
            }
        }
    }
    Ok(ResponseMessage::Feathers(out))
}

/// Dispatch one query request to its handler.  Each handler's
/// guarantees carry through: a status reply is exactly the persisted
/// span set, a record reply is sound, newest first, capped at the
/// limit and complete below it, and only a store failure (or, for a
/// status request, malformed persisted data) yields an error.
pub fn process_msg(trees: &Trees, msg: RequestMessage) -> (r: Result<ResponseMessage, IndexError>)
    ensures
        msg is Status ==> {
            &&& (r matches Ok(m) ==> m matches ResponseMessage::Status(v) && spans_wf(v@)
                && spans_store_map(v@) == tree_contents(trees.span))
            &&& (r is Err ==> (r matches Err(IndexError::Sled(_)) || r matches Err(
                IndexError::ParseError,
            )))
            &&& (forall|s: Seq<Span>|
                spans_wf(s) && tree_contents(trees.span) == spans_store_map(s) ==> !(r matches Err(
                    IndexError::ParseError,
                )))
        },
        msg is SizeOnDisk ==> {
            &&& (r matches Ok(m) ==> m is SizeOnDisk)
            &&& (r is Err ==> r matches Err(IndexError::Sled(_)))
        },
        msg matches RequestMessage::GetFeathers { block_number, limit, account_id, genre } ==> {
            &&& (r matches Ok(m) ==> (m matches ResponseMessage::Feathers(v) && {
                let contents = tree_contents(trees.feather);
                &&& v@.len() <= limit
                &&& forall|j: int|
                    0 <= j < v@.len() ==> {
                        let f = #[trigger] v@[j];
                        &&& f.account_id@.len() == 32
                        &&& contents.contains_key(f.key()) && contents[f.key()] == f.remark@
                        &&& f.block_number <= block_number
                        &&& (account_id matches Some(a) ==> f.account_id@ == a@)
                        &&& (genre matches Some(g) ==> split_sep(f.remark@).len() >= 2
                            && split_sep(f.remark@)[1] == g@)
                    }
                &&& forall|j1: int, j2: int|
                    0 <= j1 < j2 < v@.len() ==> lex_lt(
                        #[trigger] v@[j2].key(),
                        #[trigger] v@[j1].key(),
                    ) && v@[j2].block_number <= v@[j1].block_number
                &&& (v@.len() < limit ==> forall|k: Seq<u8>|
                    #[trigger] contents.contains_key(k) && matches_query(
                        k,
                        contents[k],
                        block_number,
                        account_id,
                        genre,
                    ) ==> exists|j: int| 0 <= j < v@.len() && (#[trigger] v@[j].key()) == k)
                &&& (v@.len() > 0 ==> forall|k: Seq<u8>|
                    #[trigger] contents.contains_key(k) && matches_query(
                        k,
                        contents[k],
                        block_number,
                        account_id,
                        genre,
                    ) && lex_lt(v@[v@.len() - 1].key(), k) ==> exists|j: int|
                        0 <= j < v@.len() && (#[trigger] v@[j].key()) == k)
            }))
            &&& (r is Err ==> r matches Err(IndexError::Sled(_)))
        },
{
    match msg {
        RequestMessage::Status => process_msg_status(&trees.span),
        RequestMessage::GetFeathers { block_number, limit, account_id, genre } => {
            process_msg_get_feathers(&trees.feather, block_number, limit, account_id, genre)
        },
        RequestMessage::SizeOnDisk => {
            match db_size_on_disk(&trees.root) {
                Ok(size) => Ok(ResponseMessage::SizeOnDisk(size)),
                Err(e) => Err(IndexError::Sled(e)),
            }
        },
    }
}

} // verus!
