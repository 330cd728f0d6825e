//! A B+Tree node: its own address, its parent's address and its body, and
//! the operations on it: encode, decode, split and the body's mutations.
use vstd::prelude::*;

use crate::codec::{enc_field, le32};
use crate::db_key::{DbKey, zero_key, LEN_DB_KEY};
use crate::error::Error;
use crate::layout::{
    BodyModel,
    NodeModel,
    OFFSET_DB_KEY,
    OFFSET_NODE_DATA,
    OFFSET_NODE_TYPE,
    OFFSET_PARENT_DB_KEY,
    TAG_INTERNAL,
    TAG_LEAF,
    addrs_at,
    addrs_valid,
    enc_fields,
    enc_record,
    enc_records,
    fields_at,
    fields_valid,
    fits_u32,
    lemma_addrs_len,
    lemma_enc_fields_push,
    lemma_enc_fields_split,
    lemma_enc_records_push,
    lemma_flatten_split,
    lemma_header_parts,
    lemma_internal_candidate,
    lemma_join_blocks,
    lemma_leaf_candidate,
    lemma_record_fields,
    lemma_sub_block,
    records_at,
    records_valid,
};

verus! {

/// One indexed entry of a leaf.
#[derive(Clone, Debug, PartialEq, Eq)]
pub struct Record {
    pub key: Vec<u8>,
    pub value: Vec<u8>,
}

impl View for Record {
    type V = (Seq<u8>, Seq<u8>);

    open spec fn view(&self) -> (Seq<u8>, Seq<u8>) {
        (self.key@, self.value@)
    }
}

/// The body of a node: child addresses and separator keys, or records.
#[derive(Clone, Debug, PartialEq, Eq)]
pub enum NodeType {
    Internal(Vec<DbKey>, Vec<Vec<u8>>),
    Leaf(Vec<Record>),
}

pub open spec fn addrs_view(cs: Seq<DbKey>) -> Seq<Seq<u8>> {
    cs.map_values(|k: DbKey| k@)
}

pub open spec fn keys_view(ks: Seq<Vec<u8>>) -> Seq<Seq<u8>> {
    ks.map_values(|k: Vec<u8>| k@)
}

pub open spec fn records_view(rs: Seq<Record>) -> Seq<(Seq<u8>, Seq<u8>)> {
    rs.map_values(|r: Record| r@)
}

impl View for NodeType {
    type V = BodyModel;

    open spec fn view(&self) -> BodyModel {
        match self {
            NodeType::Internal(children, keys) => BodyModel::Internal {
                children: addrs_view(children@),
                keys: keys_view(keys@),
            },
            NodeType::Leaf(records) => BodyModel::Leaf { records: records_view(records@) },
        }
    }
}

/// A node of the tree: its own address, its parent's address and its body.
#[derive(Clone, Debug)]
pub struct Node {
    node_type: NodeType,
    db_key: DbKey,
    parent_db_key: DbKey,
}

impl View for Node {
    type V = NodeModel;

    closed spec fn view(&self) -> NodeModel {
        NodeModel {
            self_key: self.db_key@,
            parent_key: self.parent_db_key@,
            body: self.node_type@,
        }
    }
}

proof fn lemma_addrs_view_valid(cs: Seq<DbKey>)
    ensures
        addrs_valid(addrs_view(cs)),
{
    assert forall|i: int| 0 <= i < addrs_view(cs).len() implies #[trigger] addrs_view(cs)[i].len()
        == LEN_DB_KEY by {
        assert(cs[i].key@.len() == LEN_DB_KEY);
    }
}

fn encode_addrs(out: &mut Vec<u8>, cs: &Vec<DbKey>)
    ensures
        final(out)@ == old(out)@ + addrs_view(cs@).flatten(),
{
    let mut i: usize = 0;
    while i < cs.len()
        invariant
            i <= cs@.len(),
            out@ == old(out)@ + addrs_view(cs@.take(i as int)).flatten(),
        decreases cs.len() - i,
    {
        proof {
            broadcast use Seq::lemma_flatten_push;
            assert(addrs_view(cs@.take(i + 1)) =~= addrs_view(cs@.take(i as int)).push(cs@[i as int]@));
        }
        crate::codec::write_bytes(out, cs[i].key());
        i = i + 1;
    }
    assert(cs@.take(i as int) =~= cs@);
}

fn encode_keys(out: &mut Vec<u8>, ks: &Vec<Vec<u8>>)
    requires
        fields_valid(keys_view(ks@)),
    ensures
        final(out)@ == old(out)@ + enc_fields(keys_view(ks@)),
{
    let mut i: usize = 0;
    while i < ks.len()
        invariant
            i <= ks@.len(),
            fields_valid(keys_view(ks@)),
            out@ == old(out)@ + enc_fields(keys_view(ks@.take(i as int))),
        decreases ks.len() - i,
    {
        proof {
            broadcast use Seq::lemma_flatten_push;
            assert(keys_view(ks@.take(i + 1)).map_values(|f: Seq<u8>| enc_field(f)) =~= keys_view(
                ks@.take(i as int),
            ).map_values(|f: Seq<u8>| enc_field(f)).push(enc_field(ks@[i as int]@)));
            assert(fits_u32(keys_view(ks@)[i as int].len()));
        }
        crate::codec::write_field(out, ks[i].as_slice());
        i = i + 1;
    }
    assert(ks@.take(i as int) =~= ks@);
}

fn encode_records(out: &mut Vec<u8>, rs: &Vec<Record>)
    requires
        records_valid(records_view(rs@)),
    ensures
        final(out)@ == old(out)@ + enc_records(records_view(rs@)),
{
    let mut i: usize = 0;
    while i < rs.len()
        invariant
            i <= rs@.len(),
            records_valid(records_view(rs@)),
            out@ == old(out)@ + enc_records(records_view(rs@.take(i as int))),
        decreases rs.len() - i,
    {
        proof {
            broadcast use Seq::lemma_flatten_push;
            assert(records_view(rs@.take(i + 1)).map_values(
                |r: (Seq<u8>, Seq<u8>)| enc_record(r),
            ) =~= records_view(rs@.take(i as int)).map_values(
                |r: (Seq<u8>, Seq<u8>)| enc_record(r),
            ).push(enc_record(rs@[i as int]@)));
            assert(fits_u32(records_view(rs@)[i as int].0.len()));
        }
        let ghost before = out@;
        crate::codec::write_field(out, rs[i].key.as_slice());
        crate::codec::write_field(out, rs[i].value.as_slice());
        assert(out@ =~= before + enc_record(rs@[i as int]@));
        i = i + 1;
    }
    assert(rs@.take(i as int) =~= rs@);
}

impl Node {
    /// Holds of every node this library hands out.
    pub closed spec fn wf(&self) -> bool {
        self@.valid()
    }

    pub proof fn lemma_wf(&self)
        ensures
            self.wf() <==> self@.valid(),
            self@.self_key.len() == LEN_DB_KEY,
            self@.parent_key.len() == LEN_DB_KEY,
    {
        assert(self.db_key.key@.len() == LEN_DB_KEY);
        assert(self.parent_db_key.key@.len() == LEN_DB_KEY);
    }

    /// The stored form of the node.
    pub fn encode(&self) -> (r: Vec<u8>)
        requires
            self.wf(),
        ensures
            r@ == self@.encode(),
    {
        let mut out: Vec<u8> = Vec::new();
        match &self.node_type {
            NodeType::Internal(_, _) => out.push(TAG_INTERNAL),
            NodeType::Leaf(_) => out.push(TAG_LEAF),
        }
        crate::codec::write_bytes(&mut out, self.db_key.key());
        crate::codec::write_bytes(&mut out, self.parent_db_key.key());
        assert(out@ =~= self@.header());
        match &self.node_type {
            NodeType::Internal(children, keys) => {
                crate::codec::write_u32(&mut out, children.len() as u32);
                encode_addrs(&mut out, children);
                crate::codec::write_u32(&mut out, keys.len() as u32);
                encode_keys(&mut out, keys);
            },
            NodeType::Leaf(records) => {
                crate::codec::write_u32(&mut out, records.len() as u32);
                encode_records(&mut out, records);
            },
        }
        assert(out@ =~= self@.encode());
        out
    }
}

/// Reads `n` length-prefixed keys from `pos`.
fn decode_keys(buf: &[u8], pos: usize, n: u32) -> (r: Option<(Vec<Vec<u8>>, usize)>)
    ensures
        match r {
            Some((ks, next)) => {
                &&& ks@.len() == n
                &&& fields_at(buf@, pos as int, keys_view(ks@))
                &&& next == pos + enc_fields(keys_view(ks@)).len()
                &&& forall|fs: Seq<Seq<u8>>|
                    fs.len() == n && #[trigger] fields_at(buf@, pos as int, fs) ==> fs == keys_view(
                        ks@,
                    )
            },
            None => forall|fs: Seq<Seq<u8>>| fs.len() == n ==> !#[trigger] fields_at(buf@, pos as int, fs),
        },
{
    if pos > buf.len() {
        return None;
    }
    let mut ks: Vec<Vec<u8>> = Vec::new();
    let mut p = pos;
    let mut i: u32 = 0;
    proof {
        assert(enc_fields(keys_view(ks@)) =~= Seq::<u8>::empty());
        assert(buf@.subrange(pos as int, pos as int) =~= Seq::<u8>::empty());
        assert forall|fs: Seq<Seq<u8>>|
            fs.len() == n && #[trigger] fields_at(buf@, pos as int, fs) implies fs.take(0)
            == keys_view(ks@) by {
            assert(fs.take(0) =~= keys_view(ks@));
        }
    }
    while i < n
        invariant
            i <= n,
            ks@.len() == i,
            fields_at(buf@, pos as int, keys_view(ks@)),
            p == pos + enc_fields(keys_view(ks@)).len(),
            forall|fs: Seq<Seq<u8>>|
                fs.len() == n && #[trigger] fields_at(buf@, pos as int, fs) ==> fs.take(i as int)
                    == keys_view(ks@),
        decreases n - i,
    {
        let ghost done = keys_view(ks@);
        match crate::codec::read_field(buf, p) {
            Some((f, next)) => {
                proof {
                    lemma_enc_fields_push(done, f@);
                    lemma_join_blocks(buf@, pos as int, enc_fields(done), enc_field(f@));
                    assert(keys_view(ks@.push(f)) =~= done.push(f@));
                    assert forall|fs: Seq<Seq<u8>>|
                        fs.len() == n && #[trigger] fields_at(buf@, pos as int, fs) implies fs.take(
                        i + 1,
                    ) == done.push(f@) by {
                        lemma_enc_fields_split(fs, i as int);
                        lemma_sub_block(
                            buf@,
                            pos as int,
                            enc_fields(fs.take(i as int)),
                            enc_field(fs[i as int]),
                            enc_fields(fs.skip(i + 1)),
                        );
                        assert(fits_u32(fs[i as int].len()));
                        crate::codec::lemma_field_at_unique(buf@, p as int, fs[i as int], f@);
                        assert(fs.take(i + 1) =~= fs.take(i as int).push(fs[i as int]));
                    }
                    assert(fields_valid(done.push(f@)));
                }
                ks.push(f);
                p = next;
                i = i + 1;
            },
            None => {
                proof {
                    assert forall|fs: Seq<Seq<u8>>| fs.len() == n implies !#[trigger] fields_at(
                        buf@,
                        pos as int,
                        fs,
                    ) by {
                        if fields_at(buf@, pos as int, fs) {
                            lemma_enc_fields_split(fs, i as int);
                            lemma_sub_block(
                                buf@,
                                pos as int,
                                enc_fields(fs.take(i as int)),
                                enc_field(fs[i as int]),
                                enc_fields(fs.skip(i + 1)),
                            );
                            assert(fits_u32(fs[i as int].len()));
                            assert(crate::codec::field_at(buf@, p as int, fs[i as int]));
                        }
                    }
                }
                return None;
            },
        }
    }
    proof {
        assert forall|fs: Seq<Seq<u8>>|
            fs.len() == n && #[trigger] fields_at(buf@, pos as int, fs) implies fs == keys_view(
            ks@,
        ) by {
            assert(fs.take(i as int) =~= fs);
        }
    }
    Some((ks, p))
}

fn read_addr(buf: &[u8], pos: usize) -> (r: Option<DbKey>)
    ensures
        r is Some <==> pos + LEN_DB_KEY <= buf@.len(),
        r matches Some(k) ==> k@ == buf@.subrange(pos as int, pos + LEN_DB_KEY),
{
    match crate::codec::read_bytes(buf, pos, LEN_DB_KEY) {
        Some(b) => match DbKey::from_slice(b.as_slice()) {
            Ok(k) => Some(k),
            Err(_) => None,
        },
        None => None,
    }
}

/// Reads `n` addresses from `pos`.
fn decode_addrs(buf: &[u8], pos: usize, n: u32) -> (r: Option<(Vec<DbKey>, usize)>)
    ensures
        match r {
            Some((cs, next)) => {
                &&& cs@.len() == n
                &&& addrs_at(buf@, pos as int, addrs_view(cs@))
                &&& next == pos + addrs_view(cs@).flatten().len()
                &&& forall|ds: Seq<Seq<u8>>|
                    ds.len() == n && #[trigger] addrs_at(buf@, pos as int, ds) ==> ds == addrs_view(
                        cs@,
                    )
            },
            None => forall|ds: Seq<Seq<u8>>| ds.len() == n ==> !#[trigger] addrs_at(buf@, pos as int, ds),
        },
{
    if pos > buf.len() {
        return None;
    }
    let mut cs: Vec<DbKey> = Vec::new();
    let mut p = pos;
    let mut i: u32 = 0;
    proof {
        assert(addrs_view(cs@).flatten() =~= Seq::<u8>::empty());
        assert(buf@.subrange(pos as int, pos as int) =~= Seq::<u8>::empty());
        assert forall|ds: Seq<Seq<u8>>|
            ds.len() == n && #[trigger] addrs_at(buf@, pos as int, ds) implies ds.take(0)
            == addrs_view(cs@) by {
            assert(ds.take(0) =~= addrs_view(cs@));
        }
    }
    while i < n
        invariant
            i <= n,
            cs@.len() == i,
            addrs_at(buf@, pos as int, addrs_view(cs@)),
            p == pos + addrs_view(cs@).flatten().len(),
            forall|ds: Seq<Seq<u8>>|
                ds.len() == n && #[trigger] addrs_at(buf@, pos as int, ds) ==> ds.take(i as int)
                    == addrs_view(cs@),
        decreases n - i,
    {
        let ghost done = addrs_view(cs@);
        proof {
            lemma_addrs_view_valid(cs@);
            lemma_addrs_len(done);
        }
        match read_addr(buf, p) {
            Some(k) => {
                proof {
                    broadcast use Seq::lemma_flatten_push;

                    lemma_join_blocks(buf@, pos as int, done.flatten(), k@);
                    assert(addrs_view(cs@.push(k)) =~= done.push(k@));
                    lemma_addrs_view_valid(cs@.push(k));
                    assert forall|ds: Seq<Seq<u8>>|
                        ds.len() == n && #[trigger] addrs_at(buf@, pos as int, ds) implies ds.take(
                        i + 1,
                    ) == done.push(k@) by {
                        lemma_flatten_split(ds, i as int);
                        lemma_sub_block(
                            buf@,
                            pos as int,
                            ds.take(i as int).flatten(),
                            ds[i as int],
                            ds.skip(i + 1).flatten(),
                        );
                        assert(ds.take(i + 1) =~= ds.take(i as int).push(ds[i as int]));
                    }
                }
                assert(p + LEN_DB_KEY <= buf.len());
                cs.push(k);
                p = p + LEN_DB_KEY;
                i = i + 1;
            },
            None => {
                proof {
                    assert forall|ds: Seq<Seq<u8>>| ds.len() == n implies !#[trigger] addrs_at(
                        buf@,
                        pos as int,
                        ds,
                    ) by {
                        if addrs_at(buf@, pos as int, ds) {
                            lemma_flatten_split(ds, i as int);
                            assert(ds[i as int].len() == LEN_DB_KEY);
                        }
                    }
                }
                return None;
            },
        }
    }
    proof {
        assert forall|ds: Seq<Seq<u8>>|
            ds.len() == n && #[trigger] addrs_at(buf@, pos as int, ds) implies ds == addrs_view(
            cs@,
        ) by {
            assert(ds.take(i as int) =~= ds);
        }
    }
    Some((cs, p))
}

/// Reads `n` records from `pos`.
fn decode_records(buf: &[u8], pos: usize, n: u32) -> (r: Option<(Vec<Record>, usize)>)
    ensures
        match r {
            Some((rs, next)) => {
                &&& rs@.len() == n
                &&& records_at(buf@, pos as int, records_view(rs@))
                &&& next == pos + enc_records(records_view(rs@)).len()
                &&& forall|qs: Seq<(Seq<u8>, Seq<u8>)>|
                    qs.len() == n && #[trigger] records_at(buf@, pos as int, qs) ==> qs
                        == records_view(rs@)
            },
            None => forall|qs: Seq<(Seq<u8>, Seq<u8>)>|
                qs.len() == n ==> !#[trigger] records_at(buf@, pos as int, qs),
        },
{
    if pos > buf.len() {
        return None;
    }
    let mut rs: Vec<Record> = Vec::new();
    let mut p = pos;
    let mut i: u32 = 0;
    proof {
        assert(enc_records(records_view(rs@)) =~= Seq::<u8>::empty());
        assert(buf@.subrange(pos as int, pos as int) =~= Seq::<u8>::empty());
        assert forall|qs: Seq<(Seq<u8>, Seq<u8>)>|
            qs.len() == n && #[trigger] records_at(buf@, pos as int, qs) implies qs.take(0)
            == records_view(rs@) by {
            assert(qs.take(0) =~= records_view(rs@));
        }
    }
    while i < n
        invariant
            i <= n,
            rs@.len() == i,
            records_at(buf@, pos as int, records_view(rs@)),
            p == pos + enc_records(records_view(rs@)).len(),
            forall|qs: Seq<(Seq<u8>, Seq<u8>)>|
                qs.len() == n && #[trigger] records_at(buf@, pos as int, qs) ==> qs.take(i as int)
                    == records_view(rs@),
        decreases n - i,
    {
        let ghost done = records_view(rs@);
        let (key, p1) = match crate::codec::read_field(buf, p) {
            Some(kp) => kp,
            None => {
                proof {
                    assert forall|qs: Seq<(Seq<u8>, Seq<u8>)>| qs.len() == n implies !#[trigger] records_at(
                        buf@,
                        pos as int,
                        qs,
                    ) by {
                        if records_at(buf@, pos as int, qs) {
                            lemma_record_fields(buf@, pos as int, p as int, qs, i as int);
                        }
                    }
                }
                return None;
            },
        };
        let (value, p2) = match crate::codec::read_field(buf, p1) {
            Some(vp) => vp,
            None => {
                proof {
                    assert forall|qs: Seq<(Seq<u8>, Seq<u8>)>| qs.len() == n implies !#[trigger] records_at(
                        buf@,
                        pos as int,
                        qs,
                    ) by {
                        if records_at(buf@, pos as int, qs) {
                            lemma_record_fields(buf@, pos as int, p as int, qs, i as int);
                            crate::codec::lemma_field_at_unique(buf@, p as int, qs[i as int].0, key@);
                        }
                    }
                }
                return None;
            },
        };
        let rec = Record { key, value };
        proof {
            lemma_enc_records_push(done, rec@);
            lemma_join_blocks(buf@, pos as int, enc_records(done), enc_field(rec.key@));
            lemma_join_blocks(buf@, pos as int, enc_records(done) + enc_field(rec.key@), enc_field(rec.value@));
            assert(enc_records(done) + enc_field(rec.key@) + enc_field(rec.value@) =~= enc_records(done) + enc_record(rec@));
            assert(records_view(rs@.push(rec)) =~= done.push(rec@));
            assert(records_valid(done.push(rec@)));
            assert forall|qs: Seq<(Seq<u8>, Seq<u8>)>|
                qs.len() == n && #[trigger] records_at(buf@, pos as int, qs) implies qs.take(i + 1)
                == done.push(rec@) by {
                lemma_record_fields(buf@, pos as int, p as int, qs, i as int);
                crate::codec::lemma_field_at_unique(buf@, p as int, qs[i as int].0, key@);
                crate::codec::lemma_field_at_unique(buf@, p1 as int, qs[i as int].1, value@);
                assert(qs.take(i + 1) =~= qs.take(i as int).push(qs[i as int]));
            }
        }
        rs.push(rec);
        p = p2;
        i = i + 1;
    }
    proof {
        assert forall|qs: Seq<(Seq<u8>, Seq<u8>)>|
            qs.len() == n && #[trigger] records_at(buf@, pos as int, qs) implies qs
            == records_view(rs@) by {
            assert(qs.take(i as int) =~= qs);
        }
    }
    Some((rs, p))
}

impl Node {
    /// Reads a node from its stored form. Fails with `CorruptNode` exactly
    /// when the bytes are the encoding of no valid node; otherwise the node
    /// returned is the one they encode.
    pub fn decode(bytes: &[u8]) -> (r: Result<Node, Error>)
        ensures
            match r {
                Ok(n) => n.wf() && n@.encode() == bytes@,
                Err(e) => {
                    &&& e == Error::CorruptNode
                    &&& forall|m: NodeModel| m.valid() ==> #[trigger] m.encode() != bytes@
                },
            },
            forall|m: NodeModel|
                m.valid() && #[trigger] m.encode() == bytes@ ==> (r matches Ok(n) && n@ == m),
    {
        if bytes.len() < OFFSET_NODE_DATA {
            proof {
                assert forall|m: NodeModel| m.valid() implies #[trigger] m.encode() != bytes@ by {
                    if m.encode() == bytes@ {
                        lemma_header_parts(bytes@, m);
                    }
                }
            }
            return Err(Error::CorruptNode);
        }
        let tag = bytes[OFFSET_NODE_TYPE];
        if tag != TAG_INTERNAL && tag != TAG_LEAF {
            proof {
                assert forall|m: NodeModel| m.valid() implies #[trigger] m.encode() != bytes@ by {
                    if m.encode() == bytes@ {
                        lemma_header_parts(bytes@, m);
                    }
                }
            }
            return Err(Error::CorruptNode);
        }
        let db_key = match read_addr(bytes, OFFSET_DB_KEY) {
            Some(k) => k,
            None => { return Err(Error::CorruptNode); },
        };
        let parent_db_key = match read_addr(bytes, OFFSET_PARENT_DB_KEY) {
            Some(k) => k,
            None => { return Err(Error::CorruptNode); },
        };
        let ghost header = seq![tag] + db_key@ + parent_db_key@;
        assert(bytes@.subrange(0, OFFSET_NODE_DATA as int) =~= header);
        let pos = OFFSET_NODE_DATA;
        let count = match crate::codec::read_u32(bytes, pos) {
            Some(c) => c,
            None => {
                proof {
                    assert forall|m: NodeModel| m.valid() implies #[trigger] m.encode() != bytes@ by {
                        if m.encode() == bytes@ {
                            lemma_header_parts(bytes@, m);
                        }
                    }
                }
                return Err(Error::CorruptNode);
            },
        };
        if tag == TAG_INTERNAL {
            Node::decode_internal(bytes, tag, db_key, parent_db_key, count)
        } else {
            Node::decode_leaf(bytes, tag, db_key, parent_db_key, count)
        }
    }

    fn decode_internal(bytes: &[u8], tag: u8, db_key: DbKey, parent_db_key: DbKey, count: u32) -> (r: Result<Node, Error>)
        requires
            bytes@.len() >= OFFSET_NODE_DATA + 4,
            bytes@[0] == tag,
            tag == TAG_INTERNAL,
            db_key@ == bytes@.subrange(OFFSET_DB_KEY as int, OFFSET_PARENT_DB_KEY as int),
            parent_db_key@ == bytes@.subrange(OFFSET_PARENT_DB_KEY as int, OFFSET_NODE_DATA as int),
            le32(count) == bytes@.subrange(OFFSET_NODE_DATA as int, OFFSET_NODE_DATA + 4),
        ensures
            match r {
                Ok(n) => n.wf() && n@.encode() == bytes@,
                Err(e) => {
                    &&& e == Error::CorruptNode
                    &&& forall|m: NodeModel| m.valid() ==> #[trigger] m.encode() != bytes@
                },
            },
            forall|m: NodeModel|
                m.valid() && #[trigger] m.encode() == bytes@ ==> (r matches Ok(n) && n@ == m),
    {
        let pos = OFFSET_NODE_DATA;
        let ghost header = seq![tag] + db_key@ + parent_db_key@;
        proof {
            assert(bytes@.subrange(0, OFFSET_NODE_DATA as int) =~= header);
            lemma_join_blocks(bytes@, 0, header, le32(count));
        }
        let (children, p1) = match decode_addrs(bytes, pos + 4, count) {
            Some(cp) => cp,
            None => {
                proof {
                    assert forall|m: NodeModel| m.valid() implies #[trigger] m.encode() != bytes@ by {
                        if m.encode() == bytes@ {
                            lemma_internal_candidate(bytes@, m, count);
                        }
                    }
                }
                return Err(Error::CorruptNode);
            },
        };
        let ghost cv = addrs_view(children@);
        proof {
            lemma_join_blocks(bytes@, 0, header + le32(count), cv.flatten());
        }
        let key_count = match crate::codec::read_u32(bytes, p1) {
            Some(c) => c,
            None => {
                proof {
                    assert forall|m: NodeModel| m.valid() implies #[trigger] m.encode() != bytes@ by {
                        if m.encode() == bytes@ {
                            lemma_internal_candidate(bytes@, m, count);
                        }
                    }
                }
                return Err(Error::CorruptNode);
            },
        };
        proof {
            lemma_join_blocks(bytes@, 0, header + le32(count) + cv.flatten(), le32(key_count));
        }
        if key_count as u64 + 1 != count as u64 {
            proof {
                assert forall|m: NodeModel| m.valid() implies #[trigger] m.encode() != bytes@ by {
                    if m.encode() == bytes@ {
                        lemma_internal_candidate(bytes@, m, count);
                    }
                }
            }
            return Err(Error::CorruptNode);
        }
        assert(p1 + 4 <= bytes.len());
        let (keys, p2) = match decode_keys(bytes, p1 + 4, key_count) {
            Some(kp) => kp,
            None => {
                proof {
                    assert forall|m: NodeModel| m.valid() implies #[trigger] m.encode() != bytes@ by {
                        if m.encode() == bytes@ {
                            lemma_internal_candidate(bytes@, m, count);
                        }
                    }
                }
                return Err(Error::CorruptNode);
            },
        };
        if p2 != bytes.len() {
            proof {
                assert forall|m: NodeModel| m.valid() implies #[trigger] m.encode() != bytes@ by {
                    if m.encode() == bytes@ {
                        lemma_internal_candidate(bytes@, m, count);
                    }
                }
            }
            return Err(Error::CorruptNode);
        }
        let ghost kv = keys_view(keys@);
        let n = Node { node_type: NodeType::Internal(children, keys), db_key, parent_db_key };
        proof {
            lemma_join_blocks(
                bytes@,
                0,
                header + le32(count) + cv.flatten() + le32(key_count),
                enc_fields(kv),
            );
            lemma_addrs_view_valid(children@);
            assert(bytes@ =~= n@.encode());
            assert forall|m: NodeModel| m.valid() && #[trigger] m.encode() == bytes@ implies n@ == m by {
                lemma_internal_candidate(bytes@, m, count);
            }
        }
        Ok(n)
    }

    fn decode_leaf(bytes: &[u8], tag: u8, db_key: DbKey, parent_db_key: DbKey, count: u32) -> (r: Result<Node, Error>)
        requires
            bytes@.len() >= OFFSET_NODE_DATA + 4,
            bytes@[0] == tag,
            tag == TAG_LEAF,
            db_key@ == bytes@.subrange(OFFSET_DB_KEY as int, OFFSET_PARENT_DB_KEY as int),
            parent_db_key@ == bytes@.subrange(OFFSET_PARENT_DB_KEY as int, OFFSET_NODE_DATA as int),
            le32(count) == bytes@.subrange(OFFSET_NODE_DATA as int, OFFSET_NODE_DATA + 4),
        ensures
            match r {
                Ok(n) => n.wf() && n@.encode() == bytes@,
                Err(e) => {
                    &&& e == Error::CorruptNode
                    &&& forall|m: NodeModel| m.valid() ==> #[trigger] m.encode() != bytes@
                },
            },
            forall|m: NodeModel|
                m.valid() && #[trigger] m.encode() == bytes@ ==> (r matches Ok(n) && n@ == m),
    {
        let pos = OFFSET_NODE_DATA;
        let ghost header = seq![tag] + db_key@ + parent_db_key@;
        proof {
            assert(bytes@.subrange(0, OFFSET_NODE_DATA as int) =~= header);
            lemma_join_blocks(bytes@, 0, header, le32(count));
        }
        let (records, p1) = match decode_records(bytes, pos + 4, count) {
            Some(rp) => rp,
            None => {
                proof {
                    assert forall|m: NodeModel| m.valid() implies #[trigger] m.encode() != bytes@ by {
                        if m.encode() == bytes@ {
                            lemma_leaf_candidate(bytes@, m, count);
                        }
                    }
                }
                return Err(Error::CorruptNode);
            },
        };
        if p1 != bytes.len() {
            proof {
                assert forall|m: NodeModel| m.valid() implies #[trigger] m.encode() != bytes@ by {
                    if m.encode() == bytes@ {
                        lemma_leaf_candidate(bytes@, m, count);
                    }
                }
            }
            return Err(Error::CorruptNode);
        }
        let ghost rv = records_view(records@);
        let n = Node { node_type: NodeType::Leaf(records), db_key, parent_db_key };
        proof {
            lemma_join_blocks(bytes@, 0, header + le32(count), enc_records(rv));
            assert(bytes@ =~= n@.encode());
            assert forall|m: NodeModel| m.valid() && #[trigger] m.encode() == bytes@ implies n@ == m by {
                lemma_leaf_candidate(bytes@, m, count);
            }
        }
        Ok(n)
    }
}

/// The split position that a body accepts: the median child of an internal
/// node with at least two children, the median record of a non-empty leaf.
pub open spec fn split_point_ok(body: BodyModel, at: int) -> bool {
    match body {
        BodyModel::Internal { children, .. } => children.len() >= 2 && at == children.len() / 2,
        BodyModel::Leaf { records } => records.len() >= 1 && at == records.len() / 2,
    }
}

/// What the node keeps after a split at `at`.
pub open spec fn split_left(body: BodyModel, at: int) -> BodyModel {
    match body {
        BodyModel::Internal { children, keys } => BodyModel::Internal {
            children: children.take(at),
            keys: keys.take(at - 1),
        },
        BodyModel::Leaf { records } => BodyModel::Leaf { records: records.take(at) },
    }
}

/// What the new sibling receives from a split at `at`.
pub open spec fn split_right(body: BodyModel, at: int) -> BodyModel {
    match body {
        BodyModel::Internal { children, keys } => BodyModel::Internal {
            children: children.skip(at),
            keys: keys.skip(at),
        },
        BodyModel::Leaf { records } => BodyModel::Leaf { records: records.skip(at) },
    }
}

/// The separator a split at `at` hands to the parent: the key between the
/// two halves of an internal node, or the first key of the sibling leaf.
pub open spec fn split_separator(body: BodyModel, at: int) -> Seq<u8> {
    match body {
        BodyModel::Internal { keys, .. } => keys[at - 1],
        BodyModel::Leaf { records } => records[at].0,
    }
}

/// A split of `before` at `at` left the node as `after`, handed `sep` to the
/// parent and gave the upper half to `sibling`, under the same parent.
pub open spec fn split_done(
    before: NodeModel,
    at: int,
    after: NodeModel,
    sep: Seq<u8>,
    sibling: NodeModel,
) -> bool {
    &&& after == (NodeModel { body: split_left(before.body, at), ..before })
    &&& sep == split_separator(before.body, at)
    &&& sibling.body == split_right(before.body, at)
    &&& sibling.parent_key == before.parent_key
}

impl Node {
    /// A root node with the given body at the given address.
    pub fn with_address(node_type: NodeType, address: DbKey) -> (r: Node)
        requires
            node_type@.valid(),
            address@ != zero_key(),
        ensures
            r.wf(),
            r@ == (NodeModel { self_key: address@, parent_key: zero_key(), body: node_type@ }),
    {
        let node = Node { node_type, db_key: address, parent_db_key: DbKey::zero() };
        proof {
            node.lemma_wf();
        }
        node
    }

    /// A fresh root node with the given body and a newly drawn address;
    /// `None` when the random source yields no usable address.
    pub fn new(node_type: NodeType) -> (r: Option<Node>)
        requires
            node_type@.valid(),
        ensures
            r matches Some(n) ==> {
                &&& n.wf()
                &&& n@.body == node_type@
                &&& n@.parent_key == zero_key()
                &&& n@.self_key != zero_key()
            },
    {
        match DbKey::generate() {
            Some(address) => Some(Node::with_address(node_type, address)),
            None => None,
        }
    }

    /// The node's body.
    pub fn node_type(&self) -> (r: &NodeType)
        ensures
            r@ == self@.body,
    {
        &self.node_type
    }

    /// True exactly for the root, whose parent address is the zero address.
    pub fn is_root(&self) -> (r: bool)
        ensures
            r == self@.is_root(),
    {
        self.parent_db_key.is_zero()
    }

    /// The node's own address.
    pub fn db_key(&self) -> (r: DbKey)
        ensures
            r@ == self@.self_key,
    {
        self.db_key
    }

    /// The parent's address, zero for the root.
    pub fn parent_db_key(&self) -> (r: DbKey)
        ensures
            r@ == self@.parent_key,
    {
        self.parent_db_key
    }

    /// Points the node at a new parent.
    pub fn set_parent_db_key(&mut self, key: &[u8])
        requires
            key@.len() == LEN_DB_KEY,
        ensures
            final(self)@ == (NodeModel { parent_key: key@, ..old(self)@ }),
    {
        match DbKey::from_slice(key) {
            Ok(k) => self.parent_db_key = k,
            Err(_) => {},
        }
    }

    /// Makes the node a root.
    pub fn set_parent_none(&mut self)
        ensures
            final(self)@ == (NodeModel { parent_key: zero_key(), ..old(self)@ }),
            final(self)@.is_root(),
    {
        self.parent_db_key = DbKey::zero();
    }

    /// Splits the node around its median, the new sibling taking `address`.
    /// The node keeps the lower half; the sibling, with the same parent,
    /// takes the upper half; the returned separator goes to the parent. An
    /// internal node gives up the key between the halves; a leaf's separator
    /// is the first key of the sibling, which keeps it. Any other split
    /// point, an internal node with fewer than two children or an empty leaf
    /// gives `UnexpectedError` and leaves the node as it was.
    pub fn split_with_address(&mut self, at: u64, address: DbKey) -> (r: Result<(Vec<u8>, Node), Error>)
        requires
            old(self).wf(),
            address@ != zero_key(),
            address@ != old(self)@.self_key,
        ensures
            final(self).wf(),
            r is Ok <==> split_point_ok(old(self)@.body, at as int),
            r matches Ok((sep, sibling)) ==> {
                &&& sibling.wf()
                &&& split_done(old(self)@, at as int, final(self)@, sep@, sibling@)
                &&& sibling@.self_key == address@
            },
            r matches Err(e) ==> e == Error::UnexpectedError && final(self)@ == old(self)@,
    {
        let parent_db_key = self.parent_db_key;
        let ghost old_body = self.node_type@;
        proof {
            self.lemma_wf();
        }
        match &mut self.node_type {
            NodeType::Internal(children, keys) => {
                let c = children.len();
                if c < 2 || (c / 2) as u64 != at {
                    return Err(Error::UnexpectedError);
                }
                let mid = c / 2;
                let right_children = children.split_off(mid);
                let right_keys = keys.split_off(mid);
                let sep = match keys.pop() {
                    Some(k) => k,
                    None => { return Err(Error::UnexpectedError); },
                };
                let sibling = Node {
                    node_type: NodeType::Internal(right_children, right_keys),
                    db_key: address,
                    parent_db_key,
                };
                proof {
                    let oc = old_body->children;
                    let ok = old_body->keys;
                    assert(addrs_view(children@) =~= oc.take(mid as int));
                    assert(keys_view(keys@) =~= ok.take(mid - 1));
                    assert(addrs_view(right_children@) =~= oc.skip(mid as int));
                    assert(keys_view(right_keys@) =~= ok.skip(mid as int));
                    lemma_addrs_view_valid(children@);
                    lemma_addrs_view_valid(right_children@);
                    sibling.lemma_wf();
                }
                Ok((sep, sibling))
            },
            NodeType::Leaf(records) => {
                let n = records.len();
                if n < 1 || (n / 2) as u64 != at {
                    return Err(Error::UnexpectedError);
                }
                let mid = n / 2;
                let right = records.split_off(mid);
                let mut sep: Vec<u8> = Vec::new();
                crate::codec::write_bytes(&mut sep, right[0].key.as_slice());
                let sibling = Node { node_type: NodeType::Leaf(right), db_key: address, parent_db_key };
                proof {
                    let orr = old_body->records;
                    assert(records_view(records@) =~= orr.take(mid as int));
                    assert(records_view(right@) =~= orr.skip(mid as int));
                    assert(sep@ =~= orr[mid as int].0);
                    sibling.lemma_wf();
                }
                Ok((sep, sibling))
            },
        }
    }

    /// Splits the node around its median as `split_with_address` does, the
    /// sibling taking a freshly drawn address that is neither zero nor the
    /// node's own. Also gives `UnexpectedError`, leaving the node as it was,
    /// when the random source yields no such address.
    pub fn split(&mut self, at: u64) -> (r: Result<(Vec<u8>, Node), Error>)
        requires
            old(self).wf(),
        ensures
            final(self).wf(),
            r is Ok ==> split_point_ok(old(self)@.body, at as int),
            !split_point_ok(old(self)@.body, at as int) ==> r is Err,
            r matches Ok((sep, sibling)) ==> {
                &&& sibling.wf()
                &&& split_done(old(self)@, at as int, final(self)@, sep@, sibling@)
                &&& sibling@.self_key != zero_key()
                &&& sibling@.self_key != old(self)@.self_key
            },
            r matches Err(e) ==> e == Error::UnexpectedError && final(self)@ == old(self)@,
    {
        match DbKey::generate_other_than(&self.db_key) {
            Some(address) => self.split_with_address(at, address),
            None => Err(Error::UnexpectedError),
        }
    }
}

impl Node {
    /// Inserts separator `key` at position `pos` of an internal node, with
    /// `child` as the child just after it.
    pub fn insert_child(&mut self, pos: usize, key: Vec<u8>, child: DbKey)
        requires
            old(self).wf(),
            old(self)@.body is Internal,
            pos <= old(self)@.body->keys.len(),
            old(self)@.body->children.len() < u32::MAX,
            key@.len() <= u32::MAX,
        ensures
            final(self).wf(),
            final(self)@ == (NodeModel {
                body: BodyModel::Internal {
                    children: old(self)@.body->children.insert(pos + 1, child@),
                    keys: old(self)@.body->keys.insert(pos as int, key@),
                },
                ..old(self)@
            }),
    {
        let ghost old_body = self.node_type@;
        proof {
            self.lemma_wf();
        }
        match &mut self.node_type {
            NodeType::Internal(children, keys) => {
                keys.insert(pos, key);
                children.insert(pos + 1, child);
                proof {
                    assert(keys_view(keys@) =~= old_body->keys.insert(pos as int, key@));
                    assert(addrs_view(children@) =~= old_body->children.insert(pos + 1, child@));
                    lemma_addrs_view_valid(children@);
                }
            },
            NodeType::Leaf(_) => {},
        }
    }

    /// Removes the separator at position `pos` of an internal node together
    /// with the child just after it, and returns both.
    pub fn remove_child(&mut self, pos: usize) -> (r: (Vec<u8>, DbKey))
        requires
            old(self).wf(),
            old(self)@.body is Internal,
            pos < old(self)@.body->keys.len(),
        ensures
            final(self).wf(),
            r.0@ == old(self)@.body->keys[pos as int],
            r.1@ == old(self)@.body->children[pos + 1],
            final(self)@ == (NodeModel {
                body: BodyModel::Internal {
                    children: old(self)@.body->children.remove(pos + 1),
                    keys: old(self)@.body->keys.remove(pos as int),
                },
                ..old(self)@
            }),
    {
        let ghost old_body = self.node_type@;
        proof {
            self.lemma_wf();
        }
        match &mut self.node_type {
            NodeType::Internal(children, keys) => {
                let key = keys.remove(pos);
                let child = children.remove(pos + 1);
                proof {
                    assert(keys_view(keys@) =~= old_body->keys.remove(pos as int));
                    assert(addrs_view(children@) =~= old_body->children.remove(pos + 1));
                    lemma_addrs_view_valid(children@);
                }
                (key, child)
            },
            NodeType::Leaf(_) => (Vec::new(), DbKey::zero()),
        }
    }

    /// Inserts a record at position `pos` of a leaf.
    pub fn insert_record(&mut self, pos: usize, key: Vec<u8>, value: Vec<u8>)
        requires
            old(self).wf(),
            old(self)@.body is Leaf,
            pos <= old(self)@.body->records.len(),
            old(self)@.body->records.len() < u32::MAX,
            key@.len() <= u32::MAX,
            value@.len() <= u32::MAX,
        ensures
            final(self).wf(),
            final(self)@ == (NodeModel {
                body: BodyModel::Leaf {
                    records: old(self)@.body->records.insert(pos as int, (key@, value@)),
                },
                ..old(self)@
            }),
    {
        let ghost old_body = self.node_type@;
        proof {
            self.lemma_wf();
        }
        match &mut self.node_type {
            NodeType::Leaf(records) => {
                records.insert(pos, Record { key, value });
                proof {
                    assert(records_view(records@) =~= old_body->records.insert(
                        pos as int,
                        (key@, value@),
                    ));
                }
            },
            NodeType::Internal(_, _) => {},
        }
    }

    /// Removes and returns the record at position `pos` of a leaf.
    pub fn remove_record(&mut self, pos: usize) -> (r: Record)
        requires
            old(self).wf(),
            old(self)@.body is Leaf,
            pos < old(self)@.body->records.len(),
        ensures
            final(self).wf(),
            r@ == old(self)@.body->records[pos as int],
            final(self)@ == (NodeModel {
                body: BodyModel::Leaf { records: old(self)@.body->records.remove(pos as int) },
                ..old(self)@
            }),
    {
        let ghost old_body = self.node_type@;
        proof {
            self.lemma_wf();
        }
        match &mut self.node_type {
            NodeType::Leaf(records) => {
                let r = records.remove(pos);
                proof {
                    assert(records_view(records@) =~= old_body->records.remove(pos as int));
                }
                r
            },
            NodeType::Internal(_, _) => Record { key: Vec::new(), value: Vec::new() },
        }
    }
}

/// Every node this library hands out, after any mutation or split, holds
/// one separator key fewer than it has children when it is internal.
pub proof fn lemma_count_invariant(n: &Node)
    requires
        n.wf(),
    ensures
        n@.body is Internal ==> n@.body->keys.len() + 1 == n@.body->children.len(),
{
    n.lemma_wf();
}

/// Splitting an internal node at its median loses and duplicates nothing:
/// the children are shared out between the two halves, and the keys are
/// those of the left half, the separator, then those of the right half.
pub proof fn lemma_split_internal_conserves(body: BodyModel, at: int)
    requires
        body.valid(),
        body is Internal,
        split_point_ok(body, at),
    ensures
        ({
            let c = body->children.len();
            let left = split_left(body, at);
            let right = split_right(body, at);
            &&& left.valid() && right.valid()
            &&& left->children.len() + right->children.len() == c
            &&& left->keys.len() + right->keys.len() + 1 == c - 1
            &&& split_separator(body, at) == body->keys[at - 1]
            &&& left->children + right->children == body->children
            &&& left->keys + seq![split_separator(body, at)] + right->keys == body->keys
        }),
{
    let children = body->children;
    let keys = body->keys;
    let left = split_left(body, at);
    let right = split_right(body, at);
    assert(children.take(at) + children.skip(at) =~= children);
    assert(keys.take(at - 1) + seq![keys[at - 1]] + keys.skip(at) =~= keys);
    assert(addrs_valid(left->children));
    assert(addrs_valid(right->children));
    assert(fields_valid(left->keys));
    assert(fields_valid(right->keys));
}

/// Splitting a leaf at its median shares its records out between the two
/// halves, and the separator is the first key of the right half, which
/// keeps that record.
pub proof fn lemma_split_leaf_conserves(body: BodyModel, at: int)
    requires
        body.valid(),
        body is Leaf,
        split_point_ok(body, at),
    ensures
        ({
            let left = split_left(body, at);
            let right = split_right(body, at);
            &&& left.valid() && right.valid()
            &&& left->records.len() + right->records.len() == body->records.len()
            &&& right->records.len() >= 1
            &&& split_separator(body, at) == right->records[0].0
            &&& left->records + right->records == body->records
        }),
{
    let records = body->records;
    let left = split_left(body, at);
    let right = split_right(body, at);
    assert(records.take(at) + records.skip(at) =~= records);
    assert(records_valid(left->records));
    assert(records_valid(right->records));
}

} // verus!
