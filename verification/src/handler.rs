//! Query routing: validates a query against the configured zone, then
//! answers from the apex configuration, from the static record table, or
//! from the address decoder, and filters the outcome by the requested
//! record type.

use vstd::prelude::*;

use crate::name::DnsName;
use crate::name::spec_zone_of;
use crate::parser::Parser;
use crate::parser::Token;
use crate::parser::spec_classify;
use crate::parser::spec_decode;
use crate::record::RData;
use crate::record::RDataV;
use crate::record::Record;
use crate::record::RecordType;
use crate::record::RecordV;
use crate::record::clone_records;
use crate::record::copy_bytes;

verus! {

/// Opcode of an incoming request, as handed over by the DNS engine.
#[derive(Clone, Copy, PartialEq, Eq, Structural, Debug)]
pub enum OpCode {
    Query,
    Status,
    Notify,
    Update,
}

/// Message type of an incoming request, as handed over by the DNS engine.
#[derive(Clone, Copy, PartialEq, Eq, Structural, Debug)]
pub enum MessageType {
    Query,
    Response,
}

/// Why a request was refused or a decode failed.
///
/// The first three are protocol-level rejections raised before any
/// decoding; the last two come out of the address decoder.
#[derive(Clone, Copy, PartialEq, Eq, Structural, Debug)]
pub enum Error {
    InvalidOpCode(OpCode),
    InvalidMessageType(MessageType),
    InvalidZone,
    InvalidAddress,
    NotEnoughOctets,
}

/// One static-table entry: an exact name and the records registered for
/// it.
#[derive(Debug)]
pub struct TableEntry {
    pub name: DnsName,
    pub records: Vec<Record>,
}

/// The mathematical value of a static-table entry.
#[verifier::ext_equal]
pub struct TableEntryV {
    pub name: Seq<Seq<char>>,
    pub records: Seq<RecordV>,
}

impl View for TableEntry {
    type V = TableEntryV;

    open spec fn view(&self) -> TableEntryV {
        TableEntryV { name: self.name@, records: self.records.deep_view() }
    }
}

impl DeepView for TableEntry {
    type V = TableEntryV;

    open spec fn deep_view(&self) -> TableEntryV {
        self.view()
    }
}

/// One text record to register at an exact name, as configuration hands
/// it over.
#[derive(Debug)]
pub struct TxtDef {
    pub name: DnsName,
    pub value: String,
}

/// The mathematical value of one configured text pair.
#[verifier::ext_equal]
pub struct TxtDefV {
    pub name: Seq<Seq<char>>,
    pub value: Seq<char>,
}

impl View for TxtDef {
    type V = TxtDefV;

    open spec fn view(&self) -> TxtDefV {
        TxtDefV { name: self.name@, value: self.value@ }
    }
}

impl DeepView for TxtDef {
    type V = TxtDefV;

    open spec fn deep_view(&self) -> TxtDefV {
        self.view()
    }
}

/// The request handler's configuration: the zone apex, the address lists
/// answered at the apex, and the static record table. Immutable once
/// built.
#[derive(Debug)]
pub struct Handler {
    root_zone: DnsName,
    root_ipv4: Vec<Vec<u8>>,
    root_ipv6: Vec<Vec<u8>>,
    txt_records: Vec<TableEntry>,
}

/// The mathematical value of a handler's configuration.
#[verifier::ext_equal]
pub struct HandlerV {
    pub root_zone: Seq<Seq<char>>,
    pub root_ipv4: Seq<Seq<u8>>,
    pub root_ipv6: Seq<Seq<u8>>,
    pub txt_records: Seq<TableEntryV>,
}

impl View for Handler {
    type V = HandlerV;

    closed spec fn view(&self) -> HandlerV {
        HandlerV {
            root_zone: self.root_zone@,
            root_ipv4: self.root_ipv4.deep_view(),
            root_ipv6: self.root_ipv6.deep_view(),
            txt_records: self.txt_records.deep_view(),
        }
    }
}

/// The records registered for `name`, if the table holds it; first match
/// counts, and construction keeps names unique.
pub open spec fn table_lookup(t: Seq<TableEntryV>, name: Seq<Seq<char>>) -> Option<Seq<RecordV>>
    decreases t.len(),
{
    if t.len() == 0 {
        None
    } else if t[0].name == name {
        Some(t[0].records)
    } else {
        table_lookup(t.skip(1), name)
    }
}

proof fn lemma_table_lookup_skip(t: Seq<TableEntryV>, name: Seq<Seq<char>>, i: int)
    requires
        0 <= i <= t.len(),
        forall|j: int| 0 <= j < i ==> t[j].name != name,
    ensures
        table_lookup(t, name) == table_lookup(t.skip(i), name),
    decreases i,
{
    if i == 0 {
        assert(t.skip(0) =~= t);
    } else {
        lemma_table_lookup_skip(t, name, i - 1);
        assert(t[i - 1].name != name);
        assert(t.skip(i - 1)[0] == t[i - 1]);
        assert(t.skip(i - 1).len() > 0);
        assert(t.skip(i - 1).skip(1) =~= t.skip(i));
        assert(table_lookup(t.skip(i - 1), name) == table_lookup(t.skip(i - 1).skip(1), name));
    }
}

/// What the apex query answers: every configured IPv4 address as an A
/// record, then every configured IPv6 address as an AAAA record, each
/// with TTL 3600, then any text records registered exactly at that name.
pub open spec fn apex_records(h: HandlerV, name: Seq<Seq<char>>) -> Seq<RecordV> {
    Seq::new(
        h.root_ipv4.len(),
        |i: int| RecordV { name, ttl: 3600, rdata: RDataV::A(h.root_ipv4[i]) },
    ) + Seq::new(
        h.root_ipv6.len(),
        |i: int| RecordV { name, ttl: 3600, rdata: RDataV::Aaaa(h.root_ipv6[i]) },
    ) + match table_lookup(h.txt_records, name) {
        Some(rs) => rs,
        None => Seq::<RecordV>::empty(),
    }
}

impl Handler {
    /// Looks `name` up in the static record table and hands back a copy
    /// of its registered records.
    fn lookup_static(&self, name: &DnsName) -> (r: Option<Vec<Record>>)
        ensures
            match table_lookup(self@.txt_records, name@) {
                Some(rs) => r matches Some(v) && v.deep_view() == rs,
                None => r is None,
            },
    {
        let n = self.txt_records.len();
        let mut i: usize = 0;
        while i < n
            invariant
                i <= n,
                n == self.txt_records@.len(),
                forall|j: int| 0 <= j < i ==> self.txt_records.deep_view()[j].name != name@,
            decreases n - i,
        {
            proof {
                assert(self.txt_records.deep_view()[i as int] == self.txt_records@[i as int].deep_view());
            }
            if self.txt_records[i].name.equals(name) {
                proof {
                    lemma_table_lookup_skip(self.txt_records.deep_view(), name@, i as int);
                    assert(self.txt_records.deep_view().skip(i as int)[0]
                        == self.txt_records.deep_view()[i as int]);
                }
                return Some(clone_records(&self.txt_records[i].records));
            }
            i += 1;
        }
        proof {
            lemma_table_lookup_skip(self.txt_records.deep_view(), name@, n as int);
            assert(self.txt_records.deep_view().skip(n as int) =~= Seq::<TableEntryV>::empty());
        }
        None
    }

    /// Answers a query for the zone apex itself: the configured address
    /// records plus any text records registered at the apex. No decoding
    /// is involved.
    fn handle_root_request(&self, name: &DnsName) -> (r: Vec<Record>)
        ensures
            r.deep_view() == apex_records(self@, name@),
    {
        let ghost seg4 = Seq::new(
            self@.root_ipv4.len(),
            |i: int| RecordV { name: name@, ttl: 3600, rdata: RDataV::A(self@.root_ipv4[i]) },
        );
        let ghost seg6 = Seq::new(
            self@.root_ipv6.len(),
            |i: int| RecordV { name: name@, ttl: 3600, rdata: RDataV::Aaaa(self@.root_ipv6[i]) },
        );
        let mut records: Vec<Record> = Vec::new();
        let n4 = self.root_ipv4.len();
        let mut i: usize = 0;
        while i < n4
            invariant
                i <= n4,
                n4 == self.root_ipv4@.len(),
                seg4 == Seq::new(
                    self@.root_ipv4.len(),
                    |k: int| RecordV { name: name@, ttl: 3600, rdata: RDataV::A(self@.root_ipv4[k]) },
                ),
                records.deep_view() =~= seg4.take(i as int),
            decreases n4 - i,
        {
            let ghost prev = records.deep_view();
            let rec = Record {
                name: name.clone_name(),
                ttl: 3600,
                rdata: RData::A(copy_bytes(&self.root_ipv4[i])),
            };
            proof {
                assert(self.root_ipv4.deep_view()[i as int] == self.root_ipv4@[i as int]@);
                assert(rec.deep_view() == seg4[i as int]);
            }
            records.push(rec);
            proof {
                assert(records.deep_view() =~= prev.push(rec.deep_view()));
            }
            i += 1;
        }
        proof {
            assert(seg4.take(n4 as int) =~= seg4);
        }
        let n6 = self.root_ipv6.len();
        let mut j: usize = 0;
        while j < n6
            invariant
                j <= n6,
                n6 == self.root_ipv6@.len(),
                seg4 == Seq::new(
                    self@.root_ipv4.len(),
                    |k: int| RecordV { name: name@, ttl: 3600, rdata: RDataV::A(self@.root_ipv4[k]) },
                ),
                seg6 == Seq::new(
                    self@.root_ipv6.len(),
                    |k: int| RecordV { name: name@, ttl: 3600, rdata: RDataV::Aaaa(self@.root_ipv6[k]) },
                ),
                records.deep_view() =~= seg4 + seg6.take(j as int),
            decreases n6 - j,
        {
            let ghost prev = records.deep_view();
            let rec = Record {
                name: name.clone_name(),
                ttl: 3600,
                rdata: RData::Aaaa(copy_bytes(&self.root_ipv6[j])),
            };
            proof {
                assert(self.root_ipv6.deep_view()[j as int] == self.root_ipv6@[j as int]@);
                assert(rec.deep_view() == seg6[j as int]);
            }
            records.push(rec);
            proof {
                assert(records.deep_view() =~= prev.push(rec.deep_view()));
            }
            j += 1;
        }
        proof {
            assert(seg6.take(n6 as int) =~= seg6);
        }
        match self.lookup_static(name) {
            Some(mut txt) => {
                let ghost prev = records.deep_view();
                let ghost txtv = txt.deep_view();
                records.append(&mut txt);
                proof {
                    assert(records.deep_view() =~= prev + txtv);
                    assert(records.deep_view() =~= apex_records(self@, name@));
                }
                records
            },
            None => {
                proof {
                    assert(records.deep_view() =~= apex_records(self@, name@));
                }
                records
            },
        }
    }
}

/// The token sequence of a name: each label classified, in order, most
/// specific first. The apex suffix labels classify too (normally to
/// `Unknown`), exactly as the decoder expects them.
pub open spec fn name_tokens(name: Seq<Seq<char>>) -> Seq<Token> {
    Seq::new(name.len(), |i: int| spec_classify(name[i]))
}

/// What routing decides: reject a non-query, reject a name outside the
/// zone, answer the apex from configuration, answer a registered name
/// from the static table unchanged (decoding skipped), else decode the
/// labels into one AAAA record with TTL 3600 or propagate the decode
/// error.
pub open spec fn spec_route(
    h: HandlerV,
    name: Seq<Seq<char>>,
    op_code: OpCode,
    message_type: MessageType,
) -> Result<Seq<RecordV>, Error> {
    if op_code != OpCode::Query {
        Err(Error::InvalidOpCode(op_code))
    } else if message_type != MessageType::Query {
        Err(Error::InvalidMessageType(message_type))
    } else if !spec_zone_of(h.root_zone, name) {
        Err(Error::InvalidZone)
    } else if name == h.root_zone {
        Ok(apex_records(h, name))
    } else {
        match table_lookup(h.txt_records, name) {
            Some(rs) => Ok(rs),
            None => match spec_decode(name_tokens(name)) {
                Ok(bs) => Ok(seq![RecordV { name, ttl: 3600, rdata: RDataV::Aaaa(bs) }]),
                Err(e) => Err(e),
            },
        }
    }
}

/// A decode failure: one of the two error kinds that the assembler
/// surfaces to clients as a text diagnostic. The protocol-level
/// rejections are not among them.
pub open spec fn is_decode_error(e: Error) -> bool {
    e == Error::InvalidAddress || e == Error::NotEnoughOctets
}

/// The fixed diagnostic text per error kind. Only the decode failures
/// ever reach a client; the fallback text exists for completeness of the
/// mapping and is never synthesized into a record.
pub open spec fn spec_diag_text(e: Error) -> Seq<char> {
    match e {
        Error::InvalidAddress => "Invalid address"@,
        Error::NotEnoughOctets => "Not enough octets"@,
        _ => "Unknown error"@,
    }
}

/// The records whose type equals `t`, in their given order.
pub open spec fn spec_keep_type(rs: Seq<RecordV>, t: RecordType) -> Seq<RecordV>
    decreases rs.len(),
{
    if rs.len() == 0 {
        rs
    } else {
        let pre = spec_keep_type(rs.drop_last(), t);
        if rs.last().rdata.rtype() == t {
            pre.push(rs.last())
        } else {
            pre
        }
    }
}

/// What a finished response holds: the routed records — or, after a
/// decode failure, one text record at the queried name with TTL 60
/// carrying the diagnostic — filtered down to the requested record type.
/// A protocol-level rejection (bad opcode, bad message type, a name
/// outside the zone) synthesizes nothing: the DNS engine owns the
/// failure behaviour for those, and the answer here is empty.
pub open spec fn spec_assemble(
    h: HandlerV,
    name: Seq<Seq<char>>,
    op_code: OpCode,
    message_type: MessageType,
    query_type: RecordType,
) -> Seq<RecordV> {
    let rs = match spec_route(h, name, op_code, message_type) {
        Ok(rs) => rs,
        Err(e) => if is_decode_error(e) {
            seq![RecordV { name, ttl: 60, rdata: RDataV::Txt(spec_diag_text(e)) }]
        } else {
            Seq::<RecordV>::empty()
        },
    };
    spec_keep_type(rs, query_type)
}

impl Handler {
    /// Routes one validated query to its answer: apex configuration,
    /// static table, or the address decoder.
    pub fn do_handle_request(
        &self,
        name: &DnsName,
        op_code: OpCode,
        message_type: MessageType,
    ) -> (r: Result<Vec<Record>, Error>)
        ensures
            match spec_route(self@, name@, op_code, message_type) {
                Ok(rs) => r matches Ok(v) && v.deep_view() == rs,
                Err(e) => r matches Err(e2) && e2 == e,
            },
    {
        if op_code != OpCode::Query {
            return Err(Error::InvalidOpCode(op_code));
        }
        if message_type != MessageType::Query {
            return Err(Error::InvalidMessageType(message_type));
        }
        if !self.root_zone.zone_of(name) {
            return Err(Error::InvalidZone);
        }
        if self.root_zone.equals(name) {
            return Ok(self.handle_root_request(name));
        }
        match self.lookup_static(name) {
            Some(records) => {
                return Ok(records);
            },
            None => {},
        }
        let mut parser = Parser::new();
        let n = name.labels.len();
        let mut i: usize = 0;
        while i < n
            invariant
                i <= n,
                n == name.labels@.len(),
                parser@ =~= name_tokens(name@).take(i as int),
            decreases n - i,
        {
            proof {
                assert(name@[i as int] == name.labels@[i as int]@);
            }
            parser.add_token_from_label(name.labels[i].as_str());
            i += 1;
        }
        proof {
            assert(name_tokens(name@).take(n as int) =~= name_tokens(name@));
        }
        match parser.to_address() {
            Ok(address) => {
                let rec = Record {
                    name: name.clone_name(),
                    ttl: 3600,
                    rdata: RData::Aaaa(address.bytes),
                };
                let mut records: Vec<Record> = Vec::new();
                proof {
                    let bs = spec_decode(name_tokens(name@))->Ok_0;
                    assert(rec.deep_view() == (RecordV {
                        name: name@,
                        ttl: 3600,
                        rdata: RDataV::Aaaa(bs),
                    }));
                }
                records.push(rec);
                proof {
                    let bs = spec_decode(name_tokens(name@))->Ok_0;
                    assert(records.deep_view() =~= seq![
                        RecordV { name: name@, ttl: 3600, rdata: RDataV::Aaaa(bs) },
                    ]);
                }
                Ok(records)
            },
            Err(e) => Err(e),
        }
    }

    /// Answers one query end to end: routes it, synthesizes the
    /// diagnostic text record on a decode failure, and keeps only the
    /// records of the requested type. Protocol-level rejections yield no
    /// records at all.
    pub fn handle_request(
        &self,
        name: &DnsName,
        op_code: OpCode,
        message_type: MessageType,
        query_type: RecordType,
    ) -> (r: Vec<Record>)
        ensures
            r.deep_view() == spec_assemble(self@, name@, op_code, message_type, query_type),
    {
        let records: Vec<Record> = match self.do_handle_request(name, op_code, message_type) {
            Ok(records) => records,
            Err(e) => {
                let text: Option<&str> = match e {
                    Error::InvalidAddress => Some("Invalid address"),
                    Error::NotEnoughOctets => Some("Not enough octets"),
                    _ => None,
                };
                match text {
                    Some(text) => {
                        let rec = Record {
                            name: name.clone_name(),
                            ttl: 60,
                            rdata: RData::Txt(text.to_owned()),
                        };
                        proof {
                            assert(rec.deep_view() == (RecordV {
                                name: name@,
                                ttl: 60,
                                rdata: RDataV::Txt(spec_diag_text(e)),
                            }));
                        }
                        let mut v: Vec<Record> = Vec::new();
                        v.push(rec);
                        proof {
                            assert(v.deep_view() =~= seq![
                                RecordV {
                                    name: name@,
                                    ttl: 60,
                                    rdata: RDataV::Txt(spec_diag_text(e)),
                                },
                            ]);
                        }
                        v
                    },
                    None => {
                        let v: Vec<Record> = Vec::new();
                        proof {
                            assert(v.deep_view() =~= Seq::<RecordV>::empty());
                        }
                        v
                    },
                }
            },
        };
        let ghost all = records.deep_view();
        let mut out: Vec<Record> = Vec::new();
        let n = records.len();
        let mut i: usize = 0;
        while i < n
            invariant
                i <= n,
                n == records@.len(),
                all == records.deep_view(),
                out.deep_view() =~= spec_keep_type(all.take(i as int), query_type),
            decreases n - i,
        {
            proof {
                assert(all.take(i + 1).drop_last() =~= all.take(i as int));
                assert(all.take(i + 1).last() == all[i as int]);
                assert(all[i as int] == records@[i as int].deep_view());
            }
            if records[i].record_type() == query_type {
                let ghost prev = out.deep_view();
                let rec = records[i].clone_record();
                out.push(rec);
                proof {
                    assert(out.deep_view() =~= prev.push(rec.deep_view()));
                }
            }
            i += 1;
        }
        proof {
            assert(all.take(n as int) =~= all);
        }
        out
    }
}

/// The record one configured text pair registers.
pub open spec fn txt_record(d: TxtDefV) -> RecordV {
    RecordV { name: d.name, ttl: 3600, rdata: RDataV::Txt(d.value) }
}

/// Registers one record under `name`: appended to the entry already
/// holding that exact name, or in a fresh entry at the end.
pub open spec fn table_insert(
    t: Seq<TableEntryV>,
    name: Seq<Seq<char>>,
    rec: RecordV,
) -> Seq<TableEntryV>
    decreases t.len(),
{
    if t.len() == 0 {
        seq![TableEntryV { name, records: seq![rec] }]
    } else if t[0].name == name {
        seq![TableEntryV { name: t[0].name, records: t[0].records.push(rec) }] + t.skip(1)
    } else {
        seq![t[0]] + table_insert(t.skip(1), name, rec)
    }
}

/// The static table grown from the configured text pairs, in order.
pub open spec fn spec_build_table(defs: Seq<TxtDefV>) -> Seq<TableEntryV>
    decreases defs.len(),
{
    if defs.len() == 0 {
        Seq::<TableEntryV>::empty()
    } else {
        table_insert(
            spec_build_table(defs.drop_last()),
            defs.last().name,
            txt_record(defs.last()),
        )
    }
}

proof fn lemma_table_insert_found(t: Seq<TableEntryV>, name: Seq<Seq<char>>, rec: RecordV, i: int)
    requires
        0 <= i < t.len(),
        forall|j: int| 0 <= j < i ==> t[j].name != name,
        t[i].name == name,
    ensures
        table_insert(t, name, rec) == t.update(
            i,
            TableEntryV { name: t[i].name, records: t[i].records.push(rec) },
        ),
    decreases i,
{
    let e = TableEntryV { name: t[i].name, records: t[i].records.push(rec) };
    if i == 0 {
        assert(seq![e] + t.skip(1) =~= t.update(0, e));
    } else {
        assert(t[0].name != name);
        assert(forall|j: int| 0 <= j < i - 1 ==> t.skip(1)[j] == t[j + 1]);
        assert(t.skip(1)[i - 1] == t[i]);
        lemma_table_insert_found(t.skip(1), name, rec, i - 1);
        assert(seq![t[0]] + t.skip(1).update(i - 1, e) =~= t.update(i, e));
    }
}

proof fn lemma_table_insert_absent(t: Seq<TableEntryV>, name: Seq<Seq<char>>, rec: RecordV)
    requires
        forall|j: int| 0 <= j < t.len() ==> t[j].name != name,
    ensures
        table_insert(t, name, rec) == t.push(TableEntryV { name, records: seq![rec] }),
    decreases t.len(),
{
    let e = TableEntryV { name, records: seq![rec] };
    if t.len() == 0 {
        assert(seq![e] =~= t.push(e));
    } else {
        assert(t[0].name != name);
        assert(forall|j: int| 0 <= j < t.skip(1).len() ==> t.skip(1)[j] == t[j + 1]);
        lemma_table_insert_absent(t.skip(1), name, rec);
        assert(seq![t[0]] + t.skip(1).push(e) =~= t.push(e));
    }
}

/// No two entries of the table carry the same name: the table is a
/// mapping.
pub open spec fn table_names_unique(t: Seq<TableEntryV>) -> bool {
    forall|i: int, j: int| 0 <= i < j < t.len() ==> t[i].name != t[j].name
}

/// Some entry of the table carries `nm`.
pub open spec fn table_has_name(t: Seq<TableEntryV>, nm: Seq<Seq<char>>) -> bool {
    exists|i: int| 0 <= i < t.len() && t[i].name == nm
}

proof fn lemma_table_insert_names(t: Seq<TableEntryV>, name: Seq<Seq<char>>, rec: RecordV, nm: Seq<Seq<char>>)
    ensures
        table_has_name(table_insert(t, name, rec), nm) <==> (table_has_name(t, nm) || nm == name),
    decreases t.len(),
{
    let r = table_insert(t, name, rec);
    if t.len() == 0 {
        assert(r[0].name == name);
        assert(table_has_name(t, nm) ==> false);
    } else if t[0].name == name {
        assert(r[0].name == name);
        assert(forall|i: int| 1 <= i < r.len() ==> r[i] == t[i]);
        if table_has_name(t, nm) {
            let i = choose|i: int| 0 <= i < t.len() && t[i].name == nm;
            assert(r[i].name == nm);
        }
        if table_has_name(r, nm) {
            let i = choose|i: int| 0 <= i < r.len() && r[i].name == nm;
            assert(i == 0 || t[i].name == nm);
        }
    } else {
        lemma_table_insert_names(t.skip(1), name, rec, nm);
        assert(r[0] == t[0]);
        assert(forall|i: int| 1 <= i < r.len() ==> r[i] == table_insert(t.skip(1), name, rec)[i - 1]);
        if table_has_name(t, nm) {
            let i = choose|i: int| 0 <= i < t.len() && t[i].name == nm;
            if i == 0 {
                assert(r[0].name == nm);
            } else {
                assert(t.skip(1)[i - 1].name == nm);
                assert(table_has_name(t.skip(1), nm));
                let k = choose|k: int| 0 <= k < table_insert(t.skip(1), name, rec).len()
                    && table_insert(t.skip(1), name, rec)[k].name == nm;
                assert(r[k + 1].name == nm);
            }
        }
        if nm == name {
            let k = choose|k: int| 0 <= k < table_insert(t.skip(1), name, rec).len()
                && table_insert(t.skip(1), name, rec)[k].name == nm;
            assert(r[k + 1].name == nm);
        }
        if table_has_name(r, nm) {
            let i = choose|i: int| 0 <= i < r.len() && r[i].name == nm;
            if i > 0 {
                assert(table_insert(t.skip(1), name, rec)[i - 1].name == nm);
                if table_has_name(t.skip(1), nm) {
                    let k = choose|k: int| 0 <= k < t.skip(1).len() && t.skip(1)[k].name == nm;
                    assert(t[k + 1].name == nm);
                }
            }
        }
    }
}

proof fn lemma_table_insert_preserves_unique(t: Seq<TableEntryV>, name: Seq<Seq<char>>, rec: RecordV)
    requires
        table_names_unique(t),
    ensures
        table_names_unique(table_insert(t, name, rec)),
    decreases t.len(),
{
    let r = table_insert(t, name, rec);
    if t.len() == 0 {
    } else if t[0].name == name {
        assert(forall|i: int| 1 <= i < r.len() ==> r[i] == t[i]);
        assert(r[0].name == t[0].name);
    } else {
        assert(forall|k: int| 0 <= k < t.skip(1).len() ==> t.skip(1)[k] == t[k + 1]);
        lemma_table_insert_preserves_unique(t.skip(1), name, rec);
        let rest = table_insert(t.skip(1), name, rec);
        assert(r[0] == t[0]);
        assert(forall|i: int| 1 <= i < r.len() ==> r[i] == rest[i - 1]);
        assert forall|j: int| 1 <= j < r.len() implies r[0].name != #[trigger] r[j].name by {
            lemma_table_insert_names(t.skip(1), name, rec, r[j].name);
            if table_has_name(t.skip(1), r[j].name) {
                let k = choose|k: int| 0 <= k < t.skip(1).len() && t.skip(1)[k].name == r[j].name;
                assert(t[k + 1].name == r[j].name);
            }
        }
    }
}

/// The table built from configuration is a true mapping: no name owns
/// two entries, so the registered records of a name are all in its one
/// entry.
pub proof fn lemma_built_table_unique(defs: Seq<TxtDefV>)
    ensures
        table_names_unique(spec_build_table(defs)),
    decreases defs.len(),
{
    if defs.len() > 0 {
        lemma_built_table_unique(defs.drop_last());
        lemma_table_insert_preserves_unique(
            spec_build_table(defs.drop_last()),
            defs.last().name,
            txt_record(defs.last()),
        );
    }
}

/// Registers one record in the executable table, exactly as
/// [`table_insert`] says.
#[verifier::loop_isolation(false)]
fn table_insert_exec(table: &mut Vec<TableEntry>, name: DnsName, rec: Record)
    ensures
        final(table).deep_view() == table_insert(old(table).deep_view(), name@, rec.deep_view()),
{
    let ghost t0 = table.deep_view();
    let ghost namev = name@;
    let ghost recv = rec.deep_view();
    let n = table.len();
    let mut i: usize = 0;
    while i < n
        invariant
            i <= n,
            n == table@.len(),
            t0 == table.deep_view(),
            namev == name@,
            recv == rec.deep_view(),
            forall|j: int| 0 <= j < i ==> table.deep_view()[j].name != name@,
        decreases n - i,
    {
        proof {
            assert(table.deep_view()[i as int] == table@[i as int].deep_view());
        }
        if table[i].name.equals(&name) {
            proof {
                assert(t0[i as int].name == namev);
                assert(forall|j: int| 0 <= j < i ==> t0[j].name != namev);
                lemma_table_insert_found(t0, namev, recv, i as int);
            }
            let mut recs = clone_records(&table[i].records);
            proof {
                assert(recs.deep_view() == t0[i as int].records);
            }
            let ghost prevr = recs.deep_view();
            recs.push(rec);
            proof {
                assert(recs.deep_view() =~= prevr.push(recv));
            }
            let entry_name = table[i].name.clone_name();
            let entry = TableEntry { name: entry_name, records: recs };
            proof {
                assert(entry.deep_view() =~= (TableEntryV {
                    name: t0[i as int].name,
                    records: t0[i as int].records.push(recv),
                }));
            }
            let ghost entryv = entry.deep_view();
            table.set(i, entry);
            proof {
                assert(table.deep_view() =~= t0.update(i as int, entryv));
                assert(table.deep_view() == table_insert(t0, namev, recv));
            }
            return;
        }
        i += 1;
    }
    let mut recs: Vec<Record> = Vec::new();
    proof {
        assert(recs.deep_view() =~= Seq::<RecordV>::empty());
    }
    recs.push(rec);
    let entry = TableEntry { name, records: recs };
    proof {
        assert(entry.deep_view() =~= (TableEntryV { name: namev, records: seq![recv] }));
    }
    let ghost entryv = entry.deep_view();
    table.push(entry);
    proof {
        lemma_table_insert_absent(t0, namev, recv);
        assert(table.deep_view() =~= t0.push(entryv));
        assert(table.deep_view() == table_insert(t0, namev, recv));
    }
}

impl Handler {
    /// Builds a handler from its startup configuration: the zone apex,
    /// the apex address lists (IPv4 addresses as four bytes, IPv6 as
    /// sixteen), and the text pairs registered in the static table, each
    /// as a TTL 3600 text record grouped under its exact name.
    pub fn from_options(
        domain: DnsName,
        root_ipv4: Vec<Vec<u8>>,
        root_ipv6: Vec<Vec<u8>>,
        additional_txt: Vec<TxtDef>,
    ) -> (h: Handler)
        ensures
            h@.root_zone == domain@,
            h@.root_ipv4 == root_ipv4.deep_view(),
            h@.root_ipv6 == root_ipv6.deep_view(),
            h@.txt_records == spec_build_table(additional_txt.deep_view()),
    {
        let ghost defs = additional_txt.deep_view();
        let mut table: Vec<TableEntry> = Vec::new();
        let n = additional_txt.len();
        let mut i: usize = 0;
        proof {
            assert(table.deep_view() =~= Seq::<TableEntryV>::empty());
            assert(defs.take(0) =~= Seq::<TxtDefV>::empty());
        }
        while i < n
            invariant
                i <= n,
                n == additional_txt@.len(),
                defs == additional_txt.deep_view(),
                table.deep_view() == spec_build_table(defs.take(i as int)),
            decreases n - i,
        {
            let rec = Record {
                name: additional_txt[i].name.clone_name(),
                ttl: 3600,
                rdata: RData::Txt(additional_txt[i].value.clone()),
            };
            proof {
                assert(defs[i as int] == additional_txt@[i as int].deep_view());
                assert(rec.deep_view() == txt_record(defs[i as int]));
            }
            table_insert_exec(&mut table, additional_txt[i].name.clone_name(), rec);
            proof {
                assert(defs.take(i + 1).drop_last() =~= defs.take(i as int));
                assert(defs.take(i + 1).last() == defs[i as int]);
            }
            i += 1;
        }
        proof {
            assert(defs.take(n as int) =~= defs);
        }
        Handler { root_zone: domain, root_ipv4, root_ipv6, txt_records: table }
    }
}

/// A name registered verbatim in the static table is answered with its
/// registered records unchanged, whatever its labels would decode to: the
/// decoder is never consulted for it.
pub proof fn lemma_static_override(h: HandlerV, name: Seq<Seq<char>>, rs: Seq<RecordV>)
    requires
        spec_zone_of(h.root_zone, name),
        name != h.root_zone,
        table_lookup(h.txt_records, name) == Some(rs),
    ensures
        spec_route(h, name, OpCode::Query, MessageType::Query) == Ok::<Seq<RecordV>, Error>(rs),
{
}

/// A failed route answered to a non-text query yields no records at all:
/// the diagnostic is a text record and the type filter drops it, so the
/// caller sees an empty, non-error answer.
pub proof fn lemma_failure_hidden_from_other_types(
    h: HandlerV,
    name: Seq<Seq<char>>,
    op_code: OpCode,
    message_type: MessageType,
    query_type: RecordType,
)
    requires
        spec_route(h, name, op_code, message_type) is Err,
        query_type != RecordType::Txt,
    ensures
        spec_assemble(h, name, op_code, message_type, query_type) == Seq::<RecordV>::empty(),
{
    let e = spec_route(h, name, op_code, message_type)->Err_0;
    assert(spec_keep_type(Seq::<RecordV>::empty(), query_type) =~= Seq::<RecordV>::empty());
    if is_decode_error(e) {
        let diag = seq![RecordV { name, ttl: 60, rdata: RDataV::Txt(spec_diag_text(e)) }];
        assert(diag.drop_last() =~= Seq::<RecordV>::empty());
        assert(diag.last().rdata.rtype() == RecordType::Txt);
        assert(spec_keep_type(diag, query_type) =~= Seq::<RecordV>::empty());
    }
}

/// A protocol-level rejection — a non-query opcode, a non-query message
/// type, or a name outside the zone — synthesizes no record at all,
/// whatever record type the client asked for: the DNS engine owns the
/// failure behaviour for those, and the assembled answer is empty.
pub proof fn lemma_protocol_errors_silent(
    h: HandlerV,
    name: Seq<Seq<char>>,
    op_code: OpCode,
    message_type: MessageType,
    query_type: RecordType,
)
    requires
        spec_route(h, name, op_code, message_type) is Err,
        !is_decode_error(spec_route(h, name, op_code, message_type)->Err_0),
    ensures
        spec_assemble(h, name, op_code, message_type, query_type) == Seq::<RecordV>::empty(),
{
    assert(spec_keep_type(Seq::<RecordV>::empty(), query_type) =~= Seq::<RecordV>::empty());
}

} // verus!
