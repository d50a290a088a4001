//! DNS records as the router and assembler see them: a name, a time to
//! live, and a type-specific payload.

use vstd::prelude::*;

use crate::name::DnsName;

verus! {

/// The type of a record, and of a query's requested type. Anything this
/// server never holds is `Other`.
#[derive(Clone, Copy, PartialEq, Eq, Structural, Debug)]
pub enum RecordType {
    A,
    Aaaa,
    Txt,
    Other,
}

/// The payload of a record: a four-byte IPv4 address, a sixteen-byte IPv6
/// address, or one text string.
#[derive(Debug, PartialEq, Eq)]
pub enum RData {
    A(Vec<u8>),
    Aaaa(Vec<u8>),
    Txt(String),
}

/// The mathematical value of a payload.
#[verifier::ext_equal]
pub enum RDataV {
    A(Seq<u8>),
    Aaaa(Seq<u8>),
    Txt(Seq<char>),
}

impl RDataV {
    /// The record type this payload answers to.
    pub open spec fn rtype(&self) -> RecordType {
        match self {
            RDataV::A(_) => RecordType::A,
            RDataV::Aaaa(_) => RecordType::Aaaa,
            RDataV::Txt(_) => RecordType::Txt,
        }
    }
}

impl View for RData {
    type V = RDataV;

    open spec fn view(&self) -> RDataV {
        match self {
            RData::A(v) => RDataV::A(v@),
            RData::Aaaa(v) => RDataV::Aaaa(v@),
            RData::Txt(s) => RDataV::Txt(s@),
        }
    }
}

impl DeepView for RData {
    type V = RDataV;

    open spec fn deep_view(&self) -> RDataV {
        self.view()
    }
}

impl RData {
    /// The record type of this payload.
    pub fn record_type(&self) -> (t: RecordType)
        ensures
            t == self@.rtype(),
    {
        match self {
            RData::A(_) => RecordType::A,
            RData::Aaaa(_) => RecordType::Aaaa,
            RData::Txt(_) => RecordType::Txt,
        }
    }
}

/// One resource record.
#[derive(Debug, PartialEq, Eq)]
pub struct Record {
    pub name: DnsName,
    pub ttl: u32,
    pub rdata: RData,
}

/// The mathematical value of a record.
#[verifier::ext_equal]
pub struct RecordV {
    pub name: Seq<Seq<char>>,
    pub ttl: u32,
    pub rdata: RDataV,
}

impl View for Record {
    type V = RecordV;

    open spec fn view(&self) -> RecordV {
        RecordV { name: self.name@, ttl: self.ttl, rdata: self.rdata@ }
    }
}

impl DeepView for Record {
    type V = RecordV;

    open spec fn deep_view(&self) -> RecordV {
        self.view()
    }
}

/// An exact copy of a byte vector.
pub(crate) fn copy_bytes(v: &Vec<u8>) -> (r: Vec<u8>)
    ensures
        r@ == v@,
{
    let mut out: Vec<u8> = Vec::new();
    let mut i: usize = 0;
    while i < v.len()
        invariant
            i <= v@.len(),
            out@ =~= v@.take(i as int),
        decreases v@.len() - i,
    {
        out.push(v[i]);
        i += 1;
    }
    proof {
        assert(v@.take(v@.len() as int) =~= v@);
    }
    out
}

impl Record {
    /// The record's type, read off its payload.
    pub fn record_type(&self) -> (t: RecordType)
        ensures
            t == self@.rdata.rtype(),
    {
        self.rdata.record_type()
    }

    /// An exact copy of the record.
    pub fn clone_record(&self) -> (r: Record)
        ensures
            r@ == self@,
    {
        let rdata = match &self.rdata {
            RData::A(v) => RData::A(copy_bytes(v)),
            RData::Aaaa(v) => RData::Aaaa(copy_bytes(v)),
            RData::Txt(s) => RData::Txt(s.clone()),
        };
        Record { name: self.name.clone_name(), ttl: self.ttl, rdata }
    }
}

/// An exact copy of a record list.
pub(crate) fn clone_records(rs: &Vec<Record>) -> (r: Vec<Record>)
    ensures
        r.deep_view() == rs.deep_view(),
{
    let mut out: Vec<Record> = Vec::new();
    let mut i: usize = 0;
    while i < rs.len()
        invariant
            i <= rs@.len(),
            out.deep_view() =~= rs.deep_view().take(i as int),
        decreases rs@.len() - i,
    {
        let ghost prev = out.deep_view();
        let rec = rs[i].clone_record();
        proof {
            assert(rec.deep_view() == rs.deep_view()[i as int]);
        }
        out.push(rec);
        proof {
            assert(out.deep_view() =~= prev.push(rec.deep_view()));
        }
        i += 1;
    }
    proof {
        assert(rs.deep_view().take(rs@.len() as int) =~= rs.deep_view());
        assert(out.deep_view() =~= rs.deep_view());
    }
    out
}

} // verus!
