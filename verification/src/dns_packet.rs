//! DNS message codec: build and parse the five sections (header, questions,
//! answers, authorities, additionals) of an RFC-1035-shaped message, plus the
//! steganographic embedding and extraction of opaque payload bytes.

use vstd::prelude::*;
use vstd::string::StringSliceAdditionalSpecFns;
use crate::bits::{
    BitBuf, append_u16, append_u32, append_u8, be16, be32, bv_bits, bytes_bits,
    lemma_bytes_bits_concat, lemma_bytes_bits_singleton, u16_be, u32_be,
};

verus! {

/// Errors surfaced by the codec and the embedding layer.
#[derive(Debug, Clone, Copy, PartialEq, Eq, Structural)]
pub enum DnsParseError {
    /// A field exceeded its on-wire capacity: carries the cap and the length seen.
    DataExceedMaxLen(usize, usize),
    /// A wire value outside the declared type/class enumerations.
    UndefinedRecordType(u16),
    /// Truncated stream, missing terminator, or a reserved label-length tag.
    StreamFormatError,
    /// A record's actual RDATA exceeds its declared length.
    RdataOverflow,
    /// A compression-pointer name where a carrier label was expected.
    PointerInCarrier,
}

#[derive(Debug, Clone, Copy, PartialEq, Eq, Structural)]
pub enum RecordType {
    A,
    AAAA,
}

#[derive(Debug, Clone, Copy, PartialEq, Eq, Structural)]
pub enum RecordClass {
    IN,
    ALL,
}

/// A DNS name: either a sequence of labels, or a 14-bit compression pointer.
/// Only the label shape is produced here; pointers are recognised in the type
/// but rejected on parse.
#[derive(Debug, PartialEq, Eq)]
pub enum DnsName {
    Str(Vec<Vec<u8>>),
    Offset(u16),
}

#[derive(Debug, Clone, Copy, PartialEq, Eq, Structural)]
pub struct Header {
    pub id: u16,
    pub flags: u16,
    pub questions_count: u16,
    pub answers_count: u16,
    pub authorities_count: u16,
    pub additional_count: u16,
}

#[derive(Debug, PartialEq, Eq)]
pub struct Question {
    pub qname: DnsName,
    pub qtype: RecordType,
    pub qclass: RecordClass,
}

#[derive(Debug, PartialEq, Eq)]
pub struct Record {
    pub rname: DnsName,
    pub rtype: RecordType,
    pub rclass: RecordClass,
    pub ttl: u32,
    pub data_length: u16,
    pub data: Vec<u8>,
}

#[derive(Debug, PartialEq, Eq)]
pub struct Packet {
    pub header: Header,
    pub questions: Vec<Question>,
    pub answers: Vec<Record>,
    pub authorities: Vec<Record>,
    pub additional: Vec<Record>,
    pub is_response: bool,
}

/// Mathematical model of a name.
pub enum NameV {
    Labels(Seq<Seq<u8>>),
    Ptr(u16),
}

/// Mathematical model of a question.
pub struct QuestionV {
    pub name: NameV,
    pub qtype: RecordType,
    pub qclass: RecordClass,
}

/// Mathematical model of a resource record.
pub struct RecordV {
    pub name: NameV,
    pub rtype: RecordType,
    pub rclass: RecordClass,
    pub ttl: u32,
    pub data_length: u16,
    pub data: Seq<u8>,
}

/// Mathematical model of a whole message.
pub struct PacketV {
    pub header: Header,
    pub questions: Seq<QuestionV>,
    pub answers: Seq<RecordV>,
    pub authorities: Seq<RecordV>,
    pub additional: Seq<RecordV>,
    pub is_response: bool,
}

/// The models of a sequence of labels.
pub open spec fn labels_view(ls: Seq<Vec<u8>>) -> Seq<Seq<u8>> {
    ls.map_values(|l: Vec<u8>| l@)
}

impl View for DnsName {
    type V = NameV;

    open spec fn view(&self) -> NameV {
        match self {
            DnsName::Str(ls) => NameV::Labels(labels_view(ls@)),
            DnsName::Offset(o) => NameV::Ptr(*o),
        }
    }
}

impl View for Question {
    type V = QuestionV;

    open spec fn view(&self) -> QuestionV {
        QuestionV { name: self.qname@, qtype: self.qtype, qclass: self.qclass }
    }
}

impl View for Record {
    type V = RecordV;

    open spec fn view(&self) -> RecordV {
        RecordV {
            name: self.rname@,
            rtype: self.rtype,
            rclass: self.rclass,
            ttl: self.ttl,
            data_length: self.data_length,
            data: self.data@,
        }
    }
}

/// The models of a sequence of questions.
pub open spec fn qs_view(s: Seq<Question>) -> Seq<QuestionV> {
    s.map_values(|q: Question| q@)
}

/// The models of a sequence of records.
pub open spec fn rs_view(s: Seq<Record>) -> Seq<RecordV> {
    s.map_values(|r: Record| r@)
}

impl View for Packet {
    type V = PacketV;

    open spec fn view(&self) -> PacketV {
        PacketV {
            header: self.header,
            questions: qs_view(self.questions@),
            answers: rs_view(self.answers@),
            authorities: rs_view(self.authorities@),
            additional: rs_view(self.additional@),
            is_response: self.is_response,
        }
    }
}

// ---------------------------------------------------------------------------
// Wire image, as octet sequences.
// ---------------------------------------------------------------------------

/// Wire value of a record type.
pub open spec fn type_val(t: RecordType) -> u16 {
    match t {
        RecordType::A => 1u16,
        RecordType::AAAA => 28u16,
    }
}

/// Wire value of a record class.
pub open spec fn class_val(c: RecordClass) -> u16 {
    match c {
        RecordClass::IN => 1u16,
        RecordClass::ALL => 255u16,
    }
}

/// `n` zero octets.
pub open spec fn zeros(n: nat) -> Seq<u8>
    decreases n,
{
    if n == 0 {
        Seq::empty()
    } else {
        zeros((n - 1) as nat).push(0u8)
    }
}

/// One length-prefixed label.
pub open spec fn ser_label(l: Seq<u8>) -> Seq<u8> {
    seq![l.len() as u8] + l
}

/// All labels, length-prefixed, without the terminating zero octet.
pub open spec fn cat_labels(ls: Seq<Seq<u8>>) -> Seq<u8>
    decreases ls.len(),
{
    if ls.len() == 0 {
        Seq::empty()
    } else {
        ser_label(ls[0]) + cat_labels(ls.drop_first())
    }
}

/// A name in label shape: length-prefixed labels, then a zero octet.
/// A pointer: one 16-bit word whose top two bits are set.
pub open spec fn ser_name(n: NameV) -> Seq<u8> {
    match n {
        NameV::Labels(ls) => cat_labels(ls) + seq![0u8],
        NameV::Ptr(off) => u16_be(off | 0xC000),
    }
}

pub open spec fn ser_question(q: QuestionV) -> Seq<u8> {
    ser_name(q.name) + u16_be(type_val(q.qtype)) + u16_be(class_val(q.qclass))
}

/// A record: name, type, class, ttl, declared RDATA length, then the RDATA
/// padded on the right with zero octets up to the declared length.
pub open spec fn ser_record(r: RecordV) -> Seq<u8> {
    ser_name(r.name) + u16_be(type_val(r.rtype)) + u16_be(class_val(r.rclass)) + u32_be(r.ttl)
        + u16_be(r.data_length) + r.data + zeros((r.data_length - r.data.len()) as nat)
}

pub open spec fn ser_header(h: Header) -> Seq<u8> {
    u16_be(h.id) + u16_be(h.flags) + u16_be(h.questions_count) + u16_be(h.answers_count) + u16_be(
        h.authorities_count,
    ) + u16_be(h.additional_count)
}

pub open spec fn ser_questions(qs: Seq<QuestionV>) -> Seq<u8>
    decreases qs.len(),
{
    if qs.len() == 0 {
        Seq::empty()
    } else {
        ser_question(qs[0]) + ser_questions(qs.drop_first())
    }
}

pub open spec fn ser_records(rs: Seq<RecordV>) -> Seq<u8>
    decreases rs.len(),
{
    if rs.len() == 0 {
        Seq::empty()
    } else {
        ser_record(rs[0]) + ser_records(rs.drop_first())
    }
}

/// The header that serialisation synthesises: the given id, the response
/// flag bit, and the four section counts.
pub open spec fn synth_header(p: PacketV, id: u16) -> Header {
    Header {
        id,
        flags: if p.is_response {
            0x8000u16
        } else {
            0u16
        },
        questions_count: p.questions.len() as u16,
        answers_count: p.answers.len() as u16,
        authorities_count: p.authorities.len() as u16,
        additional_count: p.additional.len() as u16,
    }
}

/// The whole wire image: header, questions, answers, authorities, additionals.
pub open spec fn ser_packet(p: PacketV) -> Seq<u8> {
    ser_header(p.header) + ser_questions(p.questions) + ser_records(p.answers) + ser_records(
        p.authorities,
    ) + ser_records(p.additional)
}

/// The packet `p` with its header replaced.
pub open spec fn with_header(p: PacketV, h: Header) -> PacketV {
    PacketV { header: h, ..p }
}

// ---------------------------------------------------------------------------
// Serialisability.
// ---------------------------------------------------------------------------

/// Every label's length fits the 8-bit length prefix.
pub open spec fn name_ser_ok(n: NameV) -> bool {
    match n {
        NameV::Labels(ls) => forall|i: int| 0 <= i < ls.len() ==> (#[trigger] ls[i]).len() <= 255,
        NameV::Ptr(_) => true,
    }
}

/// The record's RDATA does not exceed its declared length.
pub open spec fn record_ser_ok(r: RecordV) -> bool {
    name_ser_ok(r.name) && r.data.len() <= r.data_length
}

/// All four section counts fit their 16-bit header fields.
pub open spec fn counts_ok(p: PacketV) -> bool {
    p.questions.len() <= 0xffff && p.answers.len() <= 0xffff && p.authorities.len() <= 0xffff
        && p.additional.len() <= 0xffff
}

/// The first section count over the 16-bit cap, in header order.
pub open spec fn first_over_count(p: PacketV) -> int {
    if p.questions.len() > 0xffff {
        p.questions.len() as int
    } else if p.answers.len() > 0xffff {
        p.answers.len() as int
    } else if p.authorities.len() > 0xffff {
        p.authorities.len() as int
    } else {
        p.additional.len() as int
    }
}

pub open spec fn packet_ser_ok(p: PacketV) -> bool {
    &&& counts_ok(p)
    &&& forall|i: int| 0 <= i < p.questions.len() ==> name_ser_ok(#[trigger] p.questions[i].name)
    &&& forall|i: int| 0 <= i < p.answers.len() ==> record_ser_ok(#[trigger] p.answers[i])
    &&& forall|i: int| 0 <= i < p.authorities.len() ==> record_ser_ok(#[trigger] p.authorities[i])
    &&& forall|i: int| 0 <= i < p.additional.len() ==> record_ser_ok(#[trigger] p.additional[i])
}

// ---------------------------------------------------------------------------
// Parsing, as octet sequences.
// ---------------------------------------------------------------------------

pub open spec fn parse_u16(s: Seq<u8>, i: int) -> Result<(u16, int), DnsParseError> {
    if 0 <= i && i + 2 <= s.len() {
        Ok((be16(s[i], s[i + 1]), i + 2))
    } else {
        Err(DnsParseError::StreamFormatError)
    }
}

pub open spec fn parse_u32(s: Seq<u8>, i: int) -> Result<(u32, int), DnsParseError> {
    if 0 <= i && i + 4 <= s.len() {
        Ok((be32(s[i], s[i + 1], s[i + 2], s[i + 3]), i + 4))
    } else {
        Err(DnsParseError::StreamFormatError)
    }
}

/// Read length-prefixed labels up to a zero terminator.  A length octet with
/// either of its top two bits set (a compression pointer, or reserved) is a
/// format error, as is running off the end of the stream.
pub open spec fn parse_labels(s: Seq<u8>, i: int) -> Result<(Seq<Seq<u8>>, int), DnsParseError>
    decreases s.len() - i,
{
    if !(0 <= i < s.len()) {
        Err(DnsParseError::StreamFormatError)
    } else if s[i] == 0 {
        Ok((Seq::empty(), i + 1))
    } else if s[i] >= 64 {
        Err(DnsParseError::StreamFormatError)
    } else if i + 1 + s[i] <= s.len() {
        match parse_labels(s, i + 1 + s[i]) {
            Ok((ls, j)) => Ok((seq![s.subrange(i + 1, i + 1 + s[i])] + ls, j)),
            Err(e) => Err(e),
        }
    } else {
        Err(DnsParseError::StreamFormatError)
    }
}

pub open spec fn parse_rtype(s: Seq<u8>, i: int) -> Result<(RecordType, int), DnsParseError> {
    match parse_u16(s, i) {
        Ok((v, j)) => if v == 1 {
            Ok((RecordType::A, j))
        } else if v == 28 {
            Ok((RecordType::AAAA, j))
        } else {
            Err(DnsParseError::UndefinedRecordType(v))
        },
        Err(e) => Err(e),
    }
}

pub open spec fn parse_rclass(s: Seq<u8>, i: int) -> Result<(RecordClass, int), DnsParseError> {
    match parse_u16(s, i) {
        Ok((v, j)) => if v == 1 {
            Ok((RecordClass::IN, j))
        } else if v == 255 {
            Ok((RecordClass::ALL, j))
        } else {
            Err(DnsParseError::UndefinedRecordType(v))
        },
        Err(e) => Err(e),
    }
}

pub open spec fn parse_question(s: Seq<u8>, i: int) -> Result<(QuestionV, int), DnsParseError> {
    match parse_labels(s, i) {
        Ok((ls, j)) => match parse_rtype(s, j) {
            Ok((t, k)) => match parse_rclass(s, k) {
                Ok((c, m)) => Ok(
                    (QuestionV { name: NameV::Labels(ls), qtype: t, qclass: c }, m),
                ),
                Err(e) => Err(e),
            },
            Err(e) => Err(e),
        },
        Err(e) => Err(e),
    }
}

/// After name, type and class: four octets of ttl, two of declared RDATA
/// length, then exactly that many octets of RDATA.
pub open spec fn parse_record(s: Seq<u8>, i: int) -> Result<(RecordV, int), DnsParseError> {
    match parse_labels(s, i) {
        Ok((ls, j)) => match parse_rtype(s, j) {
            Ok((t, k)) => match parse_rclass(s, k) {
                Ok((c, m)) => match parse_u32(s, m) {
                    Ok((ttl, n)) => match parse_u16(s, n) {
                        Ok((dlen, p)) => if p + dlen <= s.len() {
                            Ok(
                                (
                                    RecordV {
                                        name: NameV::Labels(ls),
                                        rtype: t,
                                        rclass: c,
                                        ttl,
                                        data_length: dlen,
                                        data: s.subrange(p, p + dlen),
                                    },
                                    p + dlen,
                                ),
                            )
                        } else {
                            Err(DnsParseError::StreamFormatError)
                        },
                        Err(e) => Err(e),
                    },
                    Err(e) => Err(e),
                },
                Err(e) => Err(e),
            },
            Err(e) => Err(e),
        },
        Err(e) => Err(e),
    }
}

pub open spec fn parse_header(s: Seq<u8>, i: int) -> Result<(Header, int), DnsParseError> {
    if 0 <= i && i + 12 <= s.len() {
        Ok(
            (
                Header {
                    id: be16(s[i], s[i + 1]),
                    flags: be16(s[i + 2], s[i + 3]),
                    questions_count: be16(s[i + 4], s[i + 5]),
                    answers_count: be16(s[i + 6], s[i + 7]),
                    authorities_count: be16(s[i + 8], s[i + 9]),
                    additional_count: be16(s[i + 10], s[i + 11]),
                },
                i + 12,
            ),
        )
    } else {
        Err(DnsParseError::StreamFormatError)
    }
}

pub open spec fn parse_questions_n(s: Seq<u8>, i: int, n: int) -> Result<
    (Seq<QuestionV>, int),
    DnsParseError,
>
    decreases n,
{
    if n <= 0 {
        Ok((Seq::empty(), i))
    } else {
        match parse_question(s, i) {
            Ok((q, j)) => match parse_questions_n(s, j, n - 1) {
                Ok((qs, k)) => Ok((seq![q] + qs, k)),
                Err(e) => Err(e),
            },
            Err(e) => Err(e),
        }
    }
}

pub open spec fn parse_records_n(s: Seq<u8>, i: int, n: int) -> Result<
    (Seq<RecordV>, int),
    DnsParseError,
>
    decreases n,
{
    if n <= 0 {
        Ok((Seq::empty(), i))
    } else {
        match parse_record(s, i) {
            Ok((r, j)) => match parse_records_n(s, j, n - 1) {
                Ok((rs, k)) => Ok((seq![r] + rs, k)),
                Err(e) => Err(e),
            },
            Err(e) => Err(e),
        }
    }
}

/// Parse a whole message: header, then as many questions and records as the
/// four header counts advertise.  Trailing octets are ignored.
pub open spec fn parse_packet(s: Seq<u8>) -> Result<PacketV, DnsParseError> {
    match parse_header(s, 0) {
        Ok((h, i1)) => match parse_questions_n(s, i1, h.questions_count as int) {
            Ok((qs, i2)) => match parse_records_n(s, i2, h.answers_count as int) {
                Ok((ans, i3)) => match parse_records_n(s, i3, h.authorities_count as int) {
                    Ok((auth, i4)) => match parse_records_n(s, i4, h.additional_count as int) {
                        Ok((add, _)) => Ok(
                            PacketV {
                                header: h,
                                questions: qs,
                                answers: ans,
                                authorities: auth,
                                additional: add,
                                is_response: h.flags & 0x8000 == 0x8000,
                            },
                        ),
                        Err(e) => Err(e),
                    },
                    Err(e) => Err(e),
                },
                Err(e) => Err(e),
            },
            Err(e) => Err(e),
        },
        Err(e) => Err(e),
    }
}

/// What parsing appends onto an existing packet: sections are extended, the
/// header is replaced, and a set response flag is kept.
pub open spec fn merge_parsed(p: PacketV, q: PacketV) -> PacketV {
    PacketV {
        header: q.header,
        questions: p.questions + q.questions,
        answers: p.answers + q.answers,
        authorities: p.authorities + q.authorities,
        additional: p.additional + q.additional,
        is_response: p.is_response || q.is_response,
    }
}

// ---------------------------------------------------------------------------
// Serialisation (executable).
// ---------------------------------------------------------------------------

impl RecordType {
    fn value(self) -> (r: u16)
        ensures
            r == type_val(self),
    {
        match self {
            Self::A => 1,
            Self::AAAA => 28,
        }
    }

    /// Append the 16-bit wire value of this type.
    pub fn serialize(self, target_bv: &mut BitBuf)
        ensures
            bv_bits(*final(target_bv)) == bv_bits(*old(target_bv)) + bytes_bits(
                u16_be(type_val(self)),
            ),
    {
        let v = self.value();
        append_u16(target_bv, v);
    }
}

impl RecordClass {
    /// The class for a wire value, or `UndefinedRecordType` for any other.
    pub fn try_from(value: u16) -> (r: Result<RecordClass, DnsParseError>)
        ensures
            value == 1 ==> r == Ok::<RecordClass, DnsParseError>(RecordClass::IN),
            value == 255 ==> r == Ok::<RecordClass, DnsParseError>(RecordClass::ALL),
            value != 1 && value != 255 ==> r == Err::<RecordClass, DnsParseError>(
                DnsParseError::UndefinedRecordType(value),
            ),
    {
        match value {
            1 => Ok(RecordClass::IN),
            255 => Ok(RecordClass::ALL),
            n => Err(DnsParseError::UndefinedRecordType(n)),
        }
    }

    fn value(self) -> (r: u16)
        ensures
            r == class_val(self),
    {
        match self {
            Self::IN => 1,
            Self::ALL => 255,
        }
    }

    fn serialize(self, target_bv: &mut BitBuf)
        ensures
            bv_bits(*final(target_bv)) == bv_bits(*old(target_bv)) + bytes_bits(
                u16_be(class_val(self)),
            ),
    {
        let v = self.value();
        append_u16(target_bv, v);
    }
}

impl DnsName {
    /// Append the name: length-prefixed labels and a zero terminator, or a
    /// pointer word.  Fails with `DataExceedMaxLen` when a label is longer
    /// than 255 octets; the buffer is then unchanged.
    #[verifier::loop_isolation(false)]
    fn serialize(&self, target_bv: &mut BitBuf) -> (res: Result<(), DnsParseError>)
        ensures
            res is Ok <==> name_ser_ok(self@),
            res is Ok ==> bv_bits(*final(target_bv)) == bv_bits(*old(target_bv)) + bytes_bits(
                ser_name(self@),
            ),
            res is Err ==> bv_bits(*final(target_bv)) == bv_bits(*old(target_bv)),
            res matches Err(e) ==> (e matches DnsParseError::DataExceedMaxLen(m, g) && m == 255
                && g > 255 && exists|i: int|
                0 <= i < self@->Labels_0.len() && (#[trigger] self@->Labels_0[i]).len() == g),
    {
        match self {
            DnsName::Str(labels) => {
                let ghost lsv = labels_view(labels@);
                let mut i: usize = 0;
                while i < labels.len()
                    invariant
                        i <= labels.len(),
                        lsv == labels_view(labels@),
                        forall|k: int| 0 <= k < i ==> (#[trigger] lsv[k]).len() <= 255,
                    decreases labels.len() - i,
                {
                    proof {
                        assert(lsv[i as int] == labels@[i as int]@);
                    }
                    if labels[i].len() > 255 {
                        proof {
                            assert(self@ == NameV::Labels(lsv));
                            assert(lsv[i as int].len() > 255);
                            assert(!name_ser_ok(self@));
                        }
                        return Err(DnsParseError::DataExceedMaxLen(255, labels[i].len()));
                    }
                    i = i + 1;
                }
                proof {
                    assert(name_ser_ok(self@));
                }
                let ghost pre = bv_bits(*target_bv);
                proof {
                    assert(lsv.skip(0) =~= lsv);
                }
                let mut j: usize = 0;
                while j < labels.len()
                    invariant
                        j <= labels.len(),
                        lsv == labels_view(labels@),
                        forall|k: int| 0 <= k < lsv.len() ==> (#[trigger] lsv[k]).len() <= 255,
                        pre + bytes_bits(cat_labels(lsv)) == bv_bits(*target_bv) + bytes_bits(
                            cat_labels(lsv.skip(j as int)),
                        ),
                    decreases labels.len() - j,
                {
                    proof {
                        assert(lsv[j as int] == labels@[j as int]@);
                    }
                    let lab_len = labels[j].len();
                    let ghost mid = bv_bits(*target_bv);
                    append_u8(target_bv, lab_len as u8);
                    append_bytes_vec(target_bv, &labels[j]);
                    proof {
                        let tail = lsv.skip(j as int);
                        assert(tail[0] == lsv[j as int]);
                        assert(tail.drop_first() =~= lsv.skip(j + 1));
                        assert(cat_labels(tail) == ser_label(lsv[j as int]) + cat_labels(
                            lsv.skip(j + 1),
                        ));
                        assert(ser_label(lsv[j as int]) =~= seq![lab_len as u8]
                            + labels@[j as int]@);
                        lemma_bytes_bits_concat(seq![lab_len as u8], labels@[j as int]@);
                        lemma_bytes_bits_concat(
                            ser_label(lsv[j as int]),
                            cat_labels(lsv.skip(j + 1)),
                        );
                        lemma_bytes_bits_singleton(lab_len as u8);
                        assert(bv_bits(*target_bv) =~= mid + (bytes_bits(seq![lab_len as u8])
                            + bytes_bits(labels@[j as int]@)));
                        assert(pre + bytes_bits(cat_labels(lsv)) =~= bv_bits(*target_bv)
                            + bytes_bits(cat_labels(lsv.skip(j + 1))));
                    }
                    j = j + 1;
                }
                append_u8(target_bv, 0);
                proof {
                    assert(lsv.skip(labels.len() as int) =~= Seq::<Seq<u8>>::empty());
                    assert(cat_labels(Seq::<Seq<u8>>::empty()) =~= Seq::<u8>::empty());
                    lemma_bytes_bits_concat(cat_labels(lsv), seq![0u8]);
                    lemma_bytes_bits_singleton(0u8);
                    assert(ser_name(self@) == cat_labels(lsv) + seq![0u8]);
                    assert(bv_bits(*target_bv) =~= pre + bytes_bits(ser_name(self@)));
                }
                Ok(())
            },
            DnsName::Offset(offset) => {
                append_u16(target_bv, *offset | 0xC000);
                Ok(())
            },
        }
    }
}

/// Append every octet of `v`.
fn append_bytes_vec(bv: &mut BitBuf, v: &Vec<u8>)
    ensures
        bv_bits(*final(bv)) == bv_bits(*old(bv)) + bytes_bits(v@),
{
    crate::bits::append_bytes(bv, v.as_slice());
}

impl Header {
    /// Append the six 16-bit header fields in order.
    pub fn serialize(&self, target_bv: &mut BitBuf)
        ensures
            bv_bits(*final(target_bv)) == bv_bits(*old(target_bv)) + bytes_bits(
                ser_header(*self),
            ),
    {
        let ghost pre = bv_bits(*target_bv);
        append_u16(target_bv, self.id);
        append_u16(target_bv, self.flags);
        append_u16(target_bv, self.questions_count);
        append_u16(target_bv, self.answers_count);
        append_u16(target_bv, self.authorities_count);
        append_u16(target_bv, self.additional_count);
        proof {
            lemma_bytes_bits_concat(u16_be(self.id), u16_be(self.flags));
            lemma_bytes_bits_concat(u16_be(self.id) + u16_be(self.flags),
                u16_be(self.questions_count));
            lemma_bytes_bits_concat(
                u16_be(self.id) + u16_be(self.flags) + u16_be(self.questions_count),
                u16_be(self.answers_count),
            );
            lemma_bytes_bits_concat(
                u16_be(self.id) + u16_be(self.flags) + u16_be(self.questions_count) + u16_be(
                    self.answers_count,
                ),
                u16_be(self.authorities_count),
            );
            lemma_bytes_bits_concat(
                u16_be(self.id) + u16_be(self.flags) + u16_be(self.questions_count) + u16_be(
                    self.answers_count,
                ) + u16_be(self.authorities_count),
                u16_be(self.additional_count),
            );
            assert(bv_bits(*target_bv) =~= pre + bytes_bits(ser_header(*self)));
        }
    }
}

impl Question {
    /// Append name, type and class.  On failure the buffer is unchanged.
    pub fn serialize(&self, target_bv: &mut BitBuf) -> (res: Result<(), DnsParseError>)
        ensures
            res is Ok <==> name_ser_ok(self@.name),
            res is Ok ==> bv_bits(*final(target_bv)) == bv_bits(*old(target_bv)) + bytes_bits(
                ser_question(self@),
            ),
            res is Err ==> bv_bits(*final(target_bv)) == bv_bits(*old(target_bv)),
            res matches Err(e) ==> (e matches DnsParseError::DataExceedMaxLen(m, g) && m == 255
                && g > 255),
    {
        let ghost pre = bv_bits(*target_bv);
        match self.qname.serialize(target_bv) {
            Err(e) => {
                return Err(e);
            },
            Ok(()) => {},
        }
        self.qtype.serialize(target_bv);
        self.qclass.serialize(target_bv);
        proof {
            lemma_bytes_bits_concat(ser_name(self@.name), u16_be(type_val(self.qtype)));
            lemma_bytes_bits_concat(
                ser_name(self@.name) + u16_be(type_val(self.qtype)),
                u16_be(class_val(self.qclass)),
            );
            assert(bv_bits(*target_bv) =~= pre + bytes_bits(ser_question(self@)));
        }
        Ok(())
    }
}

impl Record {
    /// Append name, type, class, ttl, declared RDATA length, then the RDATA
    /// zero-padded up to the declared length.  Fails with `RdataOverflow`
    /// when the RDATA is longer than declared; the buffer is then unchanged.
    #[verifier::rlimit(100)]
    #[verifier::loop_isolation(false)]
    pub fn serialize(&self, target_bv: &mut BitBuf) -> (res: Result<(), DnsParseError>)
        ensures
            res is Ok <==> record_ser_ok(self@),
            res is Ok ==> bv_bits(*final(target_bv)) == bv_bits(*old(target_bv)) + bytes_bits(
                ser_record(self@),
            ),
            res is Err ==> bv_bits(*final(target_bv)) == bv_bits(*old(target_bv)),
            res matches Err(e) ==> (e == DnsParseError::RdataOverflow && self@.data.len()
                > self@.data_length) || (e matches DnsParseError::DataExceedMaxLen(m, g) && m
                == 255 && g > 255 && !name_ser_ok(self@.name)),
    {
        if self.data.len() > self.data_length as usize {
            return Err(DnsParseError::RdataOverflow);
        }
        let ghost pre = bv_bits(*target_bv);
        match self.rname.serialize(target_bv) {
            Err(e) => {
                return Err(e);
            },
            Ok(()) => {},
        }
        let ghost n = ser_name(self@.name);
        let ghost t = u16_be(type_val(self.rtype));
        let ghost c = u16_be(class_val(self.rclass));
        let ghost tt = u32_be(self.ttl);
        let ghost dl = u16_be(self.data_length);
        let ghost d = self.data@;
        self.rtype.serialize(target_bv);
        proof {
            lemma_bytes_bits_concat(n, t);
            assert(bv_bits(*target_bv) =~= pre + bytes_bits(n + t));
        }
        self.rclass.serialize(target_bv);
        proof {
            lemma_bytes_bits_concat(n + t, c);
            assert(bv_bits(*target_bv) =~= pre + bytes_bits(n + t + c));
        }
        append_u32(target_bv, self.ttl);
        proof {
            lemma_bytes_bits_concat(n + t + c, tt);
            assert(bv_bits(*target_bv) =~= pre + bytes_bits(n + t + c + tt));
        }
        append_u16(target_bv, self.data_length);
        proof {
            lemma_bytes_bits_concat(n + t + c + tt, dl);
            assert(bv_bits(*target_bv) =~= pre + bytes_bits(n + t + c + tt + dl));
        }
        append_bytes_vec(target_bv, &self.data);
        proof {
            lemma_bytes_bits_concat(n + t + c + tt + dl, d);
            assert(bv_bits(*target_bv) =~= pre + bytes_bits(n + t + c + tt + dl + d));
        }
        let ghost before_pad = bv_bits(*target_bv);
        let pad: usize = self.data_length as usize - self.data.len();
        proof {
            assert(zeros(0) =~= Seq::<u8>::empty());
            assert(bytes_bits(Seq::<u8>::empty()) =~= Seq::<bool>::empty());
            assert(bv_bits(*target_bv) =~= before_pad + bytes_bits(zeros(0)));
        }
        let mut k: usize = 0;
        while k < pad
            invariant
                k <= pad,
                bv_bits(*target_bv) == before_pad + bytes_bits(zeros(k as nat)),
            decreases pad - k,
        {
            append_u8(target_bv, 0);
            proof {
                crate::bits::lemma_bytes_bits_push(zeros(k as nat), 0u8);
                assert(zeros((k + 1) as nat) == zeros(k as nat).push(0u8));
                assert(bv_bits(*target_bv) =~= before_pad + bytes_bits(zeros((k + 1) as nat)));
            }
            k = k + 1;
        }
        proof {
            let z = zeros((self.data_length - self.data@.len()) as nat);
            lemma_bytes_bits_concat(n + t + c + tt + dl + d, z);
            assert(bv_bits(*target_bv) =~= pre + bytes_bits(ser_record(self@)));
        }
        Ok(())
    }
}

/// Append each record of `rs` in order; stop at the first failure, leaving
/// the buffer as the preceding records left it.
#[verifier::loop_isolation(false)]
fn serialize_records(rs: &Vec<Record>, target_bv: &mut BitBuf) -> (res: Result<
    (),
    DnsParseError,
>)
    ensures
        res is Ok <==> (forall|i: int|
            0 <= i < rs@.len() ==> record_ser_ok(#[trigger] rs_view(rs@)[i])),
        res is Ok ==> bv_bits(*final(target_bv)) == bv_bits(*old(target_bv)) + bytes_bits(
            ser_records(rs_view(rs@)),
        ),
        res matches Err(e) ==> ((e == DnsParseError::RdataOverflow) || (e
            matches DnsParseError::DataExceedMaxLen(m, g) && m == 255 && g > 255)) && exists|i: int|
            0 <= i < rs@.len() && !record_ser_ok(#[trigger] rs_view(rs@)[i]),
{
    let ghost rsv = rs_view(rs@);
    let ghost pre = bv_bits(*target_bv);
    proof {
        assert(rsv.skip(0) =~= rsv);
    }
    let mut i: usize = 0;
    while i < rs.len()
        invariant
            i <= rs.len(),
            rsv == rs_view(rs@),
            pre + bytes_bits(ser_records(rsv)) == bv_bits(*target_bv) + bytes_bits(
                ser_records(rsv.skip(i as int)),
            ),
            forall|k: int| 0 <= k < i ==> record_ser_ok(#[trigger] rsv[k]),
        decreases rs.len() - i,
    {
        let ghost mid = bv_bits(*target_bv);
        match rs[i].serialize(target_bv) {
            Err(e) => {
                proof {
                    assert(rsv[i as int] == rs@[i as int]@);
                }
                return Err(e);
            },
            Ok(()) => {},
        }
        proof {
            assert(rsv[i as int] == rs@[i as int]@);
            let tail = rsv.skip(i as int);
            assert(tail[0] == rsv[i as int]);
            assert(tail.drop_first() =~= rsv.skip(i + 1));
            assert(ser_records(tail) == ser_record(rsv[i as int]) + ser_records(rsv.skip(i + 1)));
            lemma_bytes_bits_concat(ser_record(rsv[i as int]), ser_records(rsv.skip(i + 1)));
            assert(pre + bytes_bits(ser_records(rsv)) =~= bv_bits(*target_bv) + bytes_bits(
                ser_records(rsv.skip(i + 1)),
            ));
        }
        i = i + 1;
    }
    proof {
        assert(rsv.skip(rs@.len() as int) =~= Seq::<RecordV>::empty());
        assert(ser_records(Seq::<RecordV>::empty()) =~= Seq::<u8>::empty());
        assert(bytes_bits(Seq::<u8>::empty()) =~= Seq::<bool>::empty());
        assert(bv_bits(*target_bv) =~= pre + bytes_bits(ser_records(rsv)));
    }
    Ok(())
}

// ---------------------------------------------------------------------------
// Parsing (executable).
// ---------------------------------------------------------------------------

/// Read two octets big-endian.
fn read_u16(buf: &[u8], pos: usize) -> (r: u16)
    requires
        pos + 2 <= buf@.len(),
    ensures
        r == be16(buf@[pos as int], buf@[pos as int + 1]),
{
    let hi = buf[pos];
    let lo = buf[pos + 1];
    ((hi as u16) << 8u16) | (lo as u16)
}

/// Read four octets big-endian.
fn read_u32(buf: &[u8], pos: usize) -> (r: u32)
    requires
        pos + 4 <= buf@.len(),
    ensures
        r == be32(
            buf@[pos as int],
            buf@[pos as int + 1],
            buf@[pos as int + 2],
            buf@[pos as int + 3],
        ),
{
    let b0 = buf[pos];
    let b1 = buf[pos + 1];
    let b2 = buf[pos + 2];
    let b3 = buf[pos + 3];
    ((b0 as u32) << 24u32) | ((b1 as u32) << 16u32) | ((b2 as u32) << 8u32) | (b3 as u32)
}

impl RecordType {
    /// Read a 16-bit wire value and set this type accordingly.
    fn deserialize(&mut self, buf: &[u8], pos: usize) -> (res: Result<usize, DnsParseError>)
        ensures
            parse_rtype(buf@, pos as int) matches Ok(x) ==> res matches Ok(j) && j as int == x.1
                && *final(self) == x.0,
            parse_rtype(buf@, pos as int) matches Err(e) ==> res == Err::<usize, DnsParseError>(e)
                && *final(self) == *old(self),
    {
        if buf.len() < 2 || pos > buf.len() - 2 {
            return Err(DnsParseError::StreamFormatError);
        }
        let v = read_u16(buf, pos);
        if v == 1 {
            *self = Self::A;
            Ok(pos + 2)
        } else if v == 28 {
            *self = Self::AAAA;
            Ok(pos + 2)
        } else {
            Err(DnsParseError::UndefinedRecordType(v))
        }
    }
}

impl RecordClass {
    /// Read a 16-bit wire value and set this class accordingly.
    fn deserialize(&mut self, buf: &[u8], pos: usize) -> (res: Result<usize, DnsParseError>)
        ensures
            parse_rclass(buf@, pos as int) matches Ok(x) ==> res matches Ok(j) && j as int == x.1
                && *final(self) == x.0,
            parse_rclass(buf@, pos as int) matches Err(e) ==> res == Err::<usize, DnsParseError>(e)
                && *final(self) == *old(self),
    {
        if buf.len() < 2 || pos > buf.len() - 2 {
            return Err(DnsParseError::StreamFormatError);
        }
        let v = read_u16(buf, pos);
        if v == 1 {
            *self = Self::IN;
            Ok(pos + 2)
        } else if v == 255 {
            *self = Self::ALL;
            Ok(pos + 2)
        } else {
            Err(DnsParseError::UndefinedRecordType(v))
        }
    }
}

impl DnsName {
    /// Parse a label-shaped name from `buf` at `pos`.
    #[verifier::loop_isolation(false)]
    fn deserialize(buf: &[u8], pos: usize) -> (res: Result<(DnsName, usize), DnsParseError>)
        ensures
            parse_labels(buf@, pos as int) matches Ok(x) ==> res matches Ok(r) && r.0@
                == NameV::Labels(x.0) && r.1 as int == x.1,
            parse_labels(buf@, pos as int) matches Err(e) ==> res == Err::<
                (DnsName, usize),
                DnsParseError,
            >(e),
    {
        if pos >= buf.len() {
            return Err(DnsParseError::StreamFormatError);
        }
        let mut labels: Vec<Vec<u8>> = Vec::new();
        let mut p = pos;
        loop
            invariant
                pos <= p <= buf@.len(),
                match parse_labels(buf@, p as int) {
                    Ok(x) => parse_labels(buf@, pos as int) == Ok::<_, DnsParseError>(
                        (labels_view(labels@) + x.0, x.1),
                    ),
                    Err(e) => parse_labels(buf@, pos as int) == Err::<
                        (Seq<Seq<u8>>, int),
                        DnsParseError,
                    >(e),
                },
            decreases buf@.len() - p,
        {
            proof {
                if parse_labels(buf@, p as int) is Ok {
                    let x = parse_labels(buf@, p as int)->Ok_0;
                    assert(labels_view(labels@) + x.0 =~= labels_view(labels@) + x.0);
                }
            }
            if p >= buf.len() {
                return Err(DnsParseError::StreamFormatError);
            }
            let c = buf[p];
            if c == 0 {
                proof {
                    assert(parse_labels(buf@, p as int) == Ok::<_, DnsParseError>(
                        (Seq::<Seq<u8>>::empty(), p as int + 1),
                    ));
                    assert(labels_view(labels@) + Seq::<Seq<u8>>::empty() =~= labels_view(
                        labels@,
                    ));
                }
                return Ok((DnsName::Str(labels), p + 1));
            }
            if c >= 64 {
                return Err(DnsParseError::StreamFormatError);
            }
            if (c as usize) > buf.len() - p - 1 {
                return Err(DnsParseError::StreamFormatError);
            }
            let lab = vstd::slice::slice_to_vec(
                vstd::slice::slice_subrange(buf, p + 1, p + 1 + (c as usize)),
            );
            let ghost out0 = labels@;
            let ghost p0 = p as int;
            labels.push(lab);
            p = p + 1 + (c as usize);
            proof {
                let sub = buf@.subrange(p0 + 1, p0 + 1 + c);
                assert(labels_view(labels@) =~= labels_view(out0) + seq![sub]);
                if parse_labels(buf@, p as int) is Ok {
                    let y = parse_labels(buf@, p as int)->Ok_0;
                    assert(parse_labels(buf@, p0) == Ok::<_, DnsParseError>(
                        (seq![sub] + y.0, y.1),
                    ));
                    assert(labels_view(out0) + (seq![sub] + y.0) =~= labels_view(labels@) + y.0);
                }
            }
        }
    }
}

/// Dotted text split into labels: the worker walks the octets with `i`, the
/// start of the current label in `j`, and the labels already cut in `acc`.
pub open spec fn split_dots_acc(b: Seq<u8>, i: int, j: int, acc: Seq<Seq<u8>>) -> Seq<Seq<u8>>
    decreases b.len() - i,
{
    if i < 0 || i >= b.len() {
        acc.push(b.subrange(j, b.len() as int))
    } else if b[i] == 46 {
        split_dots_acc(b, i + 1, i + 1, acc.push(b.subrange(j, i)))
    } else {
        split_dots_acc(b, i + 1, j, acc)
    }
}

/// Dotted text split into labels at every `.` octet.
pub open spec fn split_dots(b: Seq<u8>) -> Seq<Seq<u8>> {
    split_dots_acc(b, 0, 0, Seq::empty())
}

impl DnsName {
    /// A label-shaped name from dotted text, split at every dot (a `.`
    /// octet in the text's UTF-8 form).
    #[verifier::loop_isolation(false)]
    pub fn from_str(s: &str) -> (r: Result<DnsName, DnsParseError>)
        ensures
            r matches Ok(n) && n@ == NameV::Labels(split_dots(s.spec_bytes())),
    {
        let b = s.as_bytes();
        let ghost bv = b@;
        let mut out: Vec<Vec<u8>> = Vec::new();
        let mut j: usize = 0;
        let mut i: usize = 0;
        proof {
            assert(labels_view(out@) =~= Seq::<Seq<u8>>::empty());
        }
        while i < b.len()
            invariant
                j <= i <= bv.len(),
                split_dots(bv) == split_dots_acc(bv, i as int, j as int, labels_view(out@)),
            decreases bv.len() - i,
        {
            if b[i] == 46 {
                let lab = vstd::slice::slice_to_vec(vstd::slice::slice_subrange(b, j, i));
                let ghost pre = labels_view(out@);
                out.push(lab);
                proof {
                    assert(labels_view(out@) =~= pre.push(bv.subrange(j as int, i as int)));
                }
                j = i + 1;
            }
            i = i + 1;
        }
        let lab = vstd::slice::slice_to_vec(vstd::slice::slice_subrange(b, j, b.len()));
        let ghost pre = labels_view(out@);
        out.push(lab);
        proof {
            assert(labels_view(out@) =~= pre.push(bv.subrange(j as int, bv.len() as int)));
        }
        Ok(DnsName::Str(out))
    }
}

impl Question {
    fn new() -> (r: Question)
        ensures
            r@ == (QuestionV {
                name: NameV::Labels(Seq::empty()),
                qtype: RecordType::A,
                qclass: RecordClass::ALL,
            }),
    {
        let q = Question {
            qname: DnsName::Str(Vec::new()),
            qtype: RecordType::A,
            qclass: RecordClass::ALL,
        };
        proof {
            assert(labels_view(Seq::<Vec<u8>>::empty()) =~= Seq::<Seq<u8>>::empty());
        }
        q
    }

    /// Parse name, type and class from `buf` at `pos` into this question.
    /// On failure the question is unchanged.
    pub fn deserialize(&mut self, buf: &[u8], pos: usize) -> (res: Result<usize, DnsParseError>)
        ensures
            parse_question(buf@, pos as int) matches Ok(x) ==> res matches Ok(j) && j as int == x.1
                && final(self)@ == x.0,
            parse_question(buf@, pos as int) matches Err(e) ==> res == Err::<
                usize,
                DnsParseError,
            >(e) && *final(self) == *old(self),
    {
        let (name, p1) = match DnsName::deserialize(buf, pos) {
            Ok(x) => x,
            Err(e) => {
                return Err(e);
            },
        };
        let mut t = RecordType::A;
        let p2 = match t.deserialize(buf, p1) {
            Ok(j) => j,
            Err(e) => {
                return Err(e);
            },
        };
        let mut c = RecordClass::IN;
        let p3 = match c.deserialize(buf, p2) {
            Ok(j) => j,
            Err(e) => {
                return Err(e);
            },
        };
        self.qname = name;
        self.qtype = t;
        self.qclass = c;
        Ok(p3)
    }
}

impl Record {
    fn new() -> (r: Record)
        ensures
            r@ == (RecordV {
                name: NameV::Labels(Seq::empty()),
                rtype: RecordType::A,
                rclass: RecordClass::IN,
                ttl: 0u32,
                data_length: 0u16,
                data: Seq::empty(),
            }),
    {
        let r = Record {
            rname: DnsName::Str(Vec::new()),
            rtype: RecordType::A,
            rclass: RecordClass::IN,
            ttl: 0,
            data_length: 0,
            data: Vec::new(),
        };
        proof {
            assert(labels_view(Seq::<Vec<u8>>::empty()) =~= Seq::<Seq<u8>>::empty());
        }
        r
    }

    /// Parse name, type, class, ttl, declared length and RDATA from `buf`
    /// at `pos` into this record.  On failure the record is unchanged.
    fn deserialize(&mut self, buf: &[u8], pos: usize) -> (res: Result<usize, DnsParseError>)
        ensures
            parse_record(buf@, pos as int) matches Ok(x) ==> res matches Ok(j) && j as int == x.1
                && final(self)@ == x.0,
            parse_record(buf@, pos as int) matches Err(e) ==> res == Err::<usize, DnsParseError>(e)
                && *final(self) == *old(self),
    {
        let (name, p1) = match DnsName::deserialize(buf, pos) {
            Ok(x) => x,
            Err(e) => {
                return Err(e);
            },
        };
        let mut t = RecordType::A;
        let p2 = match t.deserialize(buf, p1) {
            Ok(j) => j,
            Err(e) => {
                return Err(e);
            },
        };
        let mut c = RecordClass::IN;
        let p3 = match c.deserialize(buf, p2) {
            Ok(j) => j,
            Err(e) => {
                return Err(e);
            },
        };
        if buf.len() < 4 || p3 > buf.len() - 4 {
            return Err(DnsParseError::StreamFormatError);
        }
        let ttl = read_u32(buf, p3);
        let p4 = p3 + 4;
        if buf.len() < 2 || p4 > buf.len() - 2 {
            return Err(DnsParseError::StreamFormatError);
        }
        let dlen = read_u16(buf, p4);
        let p5 = p4 + 2;
        if (dlen as usize) > buf.len() - p5 {
            return Err(DnsParseError::StreamFormatError);
        }
        let data = vstd::slice::slice_to_vec(
            vstd::slice::slice_subrange(buf, p5, p5 + (dlen as usize)),
        );
        self.rname = name;
        self.rtype = t;
        self.rclass = c;
        self.ttl = ttl;
        self.data_length = dlen;
        self.data = data;
        Ok(p5 + (dlen as usize))
    }
}

impl Header {
    /// Parse the six 16-bit header fields from `buf` at `pos`.
    /// On failure the header is unchanged.
    pub fn deserialize(&mut self, buf: &[u8], pos: usize) -> (res: Result<usize, DnsParseError>)
        ensures
            parse_header(buf@, pos as int) matches Ok(x) ==> res matches Ok(j) && j as int == x.1
                && *final(self) == x.0,
            parse_header(buf@, pos as int) matches Err(e) ==> res == Err::<usize, DnsParseError>(e)
                && *final(self) == *old(self),
    {
        if buf.len() < 12 || pos > buf.len() - 12 {
            return Err(DnsParseError::StreamFormatError);
        }
        self.id = read_u16(buf, pos);
        self.flags = read_u16(buf, pos + 2);
        self.questions_count = read_u16(buf, pos + 4);
        self.answers_count = read_u16(buf, pos + 6);
        self.authorities_count = read_u16(buf, pos + 8);
        self.additional_count = read_u16(buf, pos + 10);
        Ok(pos + 12)
    }
}

/// Parse `n` consecutive questions.
#[verifier::loop_isolation(false)]
fn parse_questions_exec(buf: &[u8], pos: usize, n: u16) -> (res: Result<
    (Vec<Question>, usize),
    DnsParseError,
>)
    ensures
        parse_questions_n(buf@, pos as int, n as int) matches Ok(x) ==> res matches Ok(r)
            && qs_view(r.0@) == x.0 && r.1 as int == x.1,
        parse_questions_n(buf@, pos as int, n as int) matches Err(e) ==> res == Err::<
            (Vec<Question>, usize),
            DnsParseError,
        >(e),
{
    let mut out: Vec<Question> = Vec::new();
    let mut p = pos;
    let mut k: u16 = 0;
    proof {
        assert(qs_view(out@) =~= Seq::<QuestionV>::empty());
    }
    while k < n
        invariant
            k <= n,
            match parse_questions_n(buf@, p as int, n - k) {
                Ok(x) => parse_questions_n(buf@, pos as int, n as int) == Ok::<_, DnsParseError>(
                    (qs_view(out@) + x.0, x.1),
                ),
                Err(e) => parse_questions_n(buf@, pos as int, n as int) == Err::<
                    (Seq<QuestionV>, int),
                    DnsParseError,
                >(e),
            },
        decreases n - k,
    {
        let mut q = Question::new();
        let ghost out0 = out@;
        let ghost p0 = p as int;
        let np = match q.deserialize(buf, p) {
            Ok(j) => j,
            Err(e) => {
                return Err(e);
            },
        };
        out.push(q);
        p = np;
        k = k + 1;
        proof {
            let qv = parse_question(buf@, p0)->Ok_0.0;
            assert(qs_view(out@) =~= qs_view(out0) + seq![q@]);
            if parse_questions_n(buf@, p as int, n - k) is Ok {
                let y = parse_questions_n(buf@, p as int, n - k)->Ok_0;
                assert(parse_questions_n(buf@, p0, n - k + 1) == Ok::<_, DnsParseError>(
                    (seq![qv] + y.0, y.1),
                ));
                assert(qs_view(out0) + (seq![qv] + y.0) =~= qs_view(out@) + y.0);
            }
        }
    }
    proof {
        if parse_questions_n(buf@, p as int, 0) is Ok {
            assert(qs_view(out@) + Seq::<QuestionV>::empty() =~= qs_view(out@));
        }
    }
    Ok((out, p))
}

/// Parse `n` consecutive records.
#[verifier::loop_isolation(false)]
fn parse_records_exec(buf: &[u8], pos: usize, n: u16) -> (res: Result<
    (Vec<Record>, usize),
    DnsParseError,
>)
    ensures
        parse_records_n(buf@, pos as int, n as int) matches Ok(x) ==> res matches Ok(r)
            && rs_view(r.0@) == x.0 && r.1 as int == x.1,
        parse_records_n(buf@, pos as int, n as int) matches Err(e) ==> res == Err::<
            (Vec<Record>, usize),
            DnsParseError,
        >(e),
{
    let mut out: Vec<Record> = Vec::new();
    let mut p = pos;
    let mut k: u16 = 0;
    proof {
        assert(rs_view(out@) =~= Seq::<RecordV>::empty());
    }
    while k < n
        invariant
            k <= n,
            match parse_records_n(buf@, p as int, n - k) {
                Ok(x) => parse_records_n(buf@, pos as int, n as int) == Ok::<_, DnsParseError>(
                    (rs_view(out@) + x.0, x.1),
                ),
                Err(e) => parse_records_n(buf@, pos as int, n as int) == Err::<
                    (Seq<RecordV>, int),
                    DnsParseError,
                >(e),
            },
        decreases n - k,
    {
        let mut rec = Record::new();
        let ghost out0 = out@;
        let ghost p0 = p as int;
        let np = match rec.deserialize(buf, p) {
            Ok(j) => j,
            Err(e) => {
                return Err(e);
            },
        };
        out.push(rec);
        p = np;
        k = k + 1;
        proof {
            let rv = parse_record(buf@, p0)->Ok_0.0;
            assert(rs_view(out@) =~= rs_view(out0) + seq![rec@]);
            if parse_records_n(buf@, p as int, n - k) is Ok {
                let y = parse_records_n(buf@, p as int, n - k)->Ok_0;
                assert(parse_records_n(buf@, p0, n - k + 1) == Ok::<_, DnsParseError>(
                    (seq![rv] + y.0, y.1),
                ));
                assert(rs_view(out0) + (seq![rv] + y.0) =~= rs_view(out@) + y.0);
            }
        }
    }
    proof {
        if parse_records_n(buf@, p as int, 0) is Ok {
            assert(rs_view(out@) + Seq::<RecordV>::empty() =~= rs_view(out@));
        }
    }
    Ok((out, p))
}

impl Packet {
    /// A fresh, empty message with the given orientation.
    pub fn new(is_response: bool) -> (r: Packet)
        ensures
            r@.questions.len() == 0,
            r@.answers.len() == 0,
            r@.authorities.len() == 0,
            r@.additional.len() == 0,
            r@.is_response == is_response,
            r@.header == (Header {
                id: 0u16,
                flags: 0u16,
                questions_count: 0u16,
                answers_count: 0u16,
                authorities_count: 0u16,
                additional_count: 0u16,
            }),
    {
        Packet {
            header: Header {
                id: 0,
                flags: 0,
                questions_count: 0,
                answers_count: 0,
                authorities_count: 0,
                additional_count: 0,
            },
            questions: Vec::new(),
            answers: Vec::new(),
            authorities: Vec::new(),
            additional: Vec::new(),
            is_response,
        }
    }

    /// Fill the header: the given id, the response flag, and the four
    /// section counts.  Fails with `DataExceedMaxLen` when a count exceeds
    /// 65535; the packet is then unchanged.
    fn header_gen(&mut self, id: u16) -> (res: Result<(), DnsParseError>)
        ensures
            res is Ok <==> counts_ok(old(self)@),
            res is Ok ==> final(self)@ == with_header(old(self)@, synth_header(old(self)@, id)),
            res is Err ==> *final(self) == *old(self),
            res matches Err(e) ==> !counts_ok(old(self)@) && e
                == DnsParseError::DataExceedMaxLen(0xffff as usize, first_over_count(old(self)@) as usize),
    {
        let qc = self.questions.len();
        if qc > 0xffff {
            return Err(DnsParseError::DataExceedMaxLen(0xffff, qc));
        }
        let anc = self.answers.len();
        if anc > 0xffff {
            return Err(DnsParseError::DataExceedMaxLen(0xffff, anc));
        }
        let nsc = self.authorities.len();
        if nsc > 0xffff {
            return Err(DnsParseError::DataExceedMaxLen(0xffff, nsc));
        }
        let arc = self.additional.len();
        if arc > 0xffff {
            return Err(DnsParseError::DataExceedMaxLen(0xffff, arc));
        }
        self.header = Header {
            id,
            flags: if self.is_response {
                0x8000
            } else {
                0
            },
            questions_count: qc as u16,
            answers_count: anc as u16,
            authorities_count: nsc as u16,
            additional_count: arc as u16,
        };
        Ok(())
    }

    /// Serialise the whole message: synthesise the header, then emit header,
    /// questions, answers, authorities and additionals in order.  Returns
    /// the bit buffer; its bits are exactly the wire image of the message as
    /// left behind (header synthesised).
    #[verifier::loop_isolation(false)]
    pub fn serialize(&mut self, id: u16) -> (res: Result<BitBuf, DnsParseError>)
        ensures
            res is Ok <==> packet_ser_ok(old(self)@),
            res matches Ok(buf) ==> {
                &&& final(self)@ == with_header(old(self)@, synth_header(old(self)@, id))
                &&& bv_bits(buf) == bytes_bits(ser_packet(final(self)@))
                &&& bv_bits(buf).len() == 8 * ser_packet(final(self)@).len()
            },
            res is Err ==> final(self)@.questions == old(self)@.questions && final(self)@.answers
                == old(self)@.answers && final(self)@.authorities == old(self)@.authorities
                && final(self)@.additional == old(self)@.additional && final(self)@.is_response
                == old(self)@.is_response,
    {
        match self.header_gen(id) {
            Err(e) => {
                return Err(e);
            },
            Ok(()) => {},
        }
        let mut buf = BitBuf::new();
        self.header.serialize(&mut buf);
        let ghost qsv = qs_view(self.questions@);
        let ghost pre_q = bv_bits(buf);
        proof {
            assert(qsv.skip(0) =~= qsv);
        }
        let mut i: usize = 0;
        while i < self.questions.len()
            invariant
                i <= self.questions.len(),
                qsv == qs_view(self.questions@),
                pre_q + bytes_bits(ser_questions(qsv)) == bv_bits(buf) + bytes_bits(
                    ser_questions(qsv.skip(i as int)),
                ),
                forall|k: int| 0 <= k < i ==> name_ser_ok(#[trigger] qsv[k].name),
            decreases self.questions.len() - i,
        {
            match self.questions[i].serialize(&mut buf) {
                Err(e) => {
                    proof {
                        assert(qsv[i as int] == self.questions@[i as int]@);
                        assert(old(self)@.questions == qsv);
                        assert(old(self)@.questions[i as int] == qsv[i as int]);
                        assert(!packet_ser_ok(old(self)@));
                    }
                    return Err(e);
                },
                Ok(()) => {},
            }
            proof {
                assert(qsv[i as int] == self.questions@[i as int]@);
                let tail = qsv.skip(i as int);
                assert(tail[0] == qsv[i as int]);
                assert(tail.drop_first() =~= qsv.skip(i + 1));
                assert(ser_questions(tail) == ser_question(qsv[i as int]) + ser_questions(
                    qsv.skip(i + 1),
                ));
                lemma_bytes_bits_concat(ser_question(qsv[i as int]), ser_questions(qsv.skip(i + 1)));
                assert(pre_q + bytes_bits(ser_questions(qsv)) =~= bv_bits(buf) + bytes_bits(
                    ser_questions(qsv.skip(i + 1)),
                ));
            }
            i = i + 1;
        }
        proof {
            assert(qsv.skip(self.questions@.len() as int) =~= Seq::<QuestionV>::empty());
            assert(ser_questions(Seq::<QuestionV>::empty()) =~= Seq::<u8>::empty());
            assert(bytes_bits(Seq::<u8>::empty()) =~= Seq::<bool>::empty());
            assert(bv_bits(buf) =~= pre_q + bytes_bits(ser_questions(qsv)));
        }
        match serialize_records(&self.answers, &mut buf) {
            Err(e) => {
                proof {
                    let j = choose|j: int|
                        0 <= j < self.answers@.len() && !record_ser_ok(
                            #[trigger] rs_view(self.answers@)[j],
                        );
                    assert(old(self)@.answers[j] == rs_view(self.answers@)[j]);
                    assert(!packet_ser_ok(old(self)@));
                }
                return Err(e);
            },
            Ok(()) => {},
        }
        match serialize_records(&self.authorities, &mut buf) {
            Err(e) => {
                proof {
                    let j = choose|j: int|
                        0 <= j < self.authorities@.len() && !record_ser_ok(
                            #[trigger] rs_view(self.authorities@)[j],
                        );
                    assert(old(self)@.authorities[j] == rs_view(self.authorities@)[j]);
                    assert(!packet_ser_ok(old(self)@));
                }
                return Err(e);
            },
            Ok(()) => {},
        }
        match serialize_records(&self.additional, &mut buf) {
            Err(e) => {
                proof {
                    let j = choose|j: int|
                        0 <= j < self.additional@.len() && !record_ser_ok(
                            #[trigger] rs_view(self.additional@)[j],
                        );
                    assert(old(self)@.additional[j] == rs_view(self.additional@)[j]);
                    assert(!packet_ser_ok(old(self)@));
                }
                return Err(e);
            },
            Ok(()) => {},
        }
        proof {
            assert(old(self)@.questions == qsv);
            assert forall|i: int| 0 <= i < old(self)@.questions.len() implies name_ser_ok(
                (#[trigger] old(self)@.questions[i]).name,
            ) by {
                assert(old(self)@.questions[i] == qsv[i]);
            }
            assert forall|i: int| 0 <= i < old(self)@.answers.len() implies record_ser_ok(
                #[trigger] old(self)@.answers[i],
            ) by {
                assert(old(self)@.answers[i] == rs_view(self.answers@)[i]);
            }
            assert forall|i: int| 0 <= i < old(self)@.authorities.len() implies record_ser_ok(
                #[trigger] old(self)@.authorities[i],
            ) by {
                assert(old(self)@.authorities[i] == rs_view(self.authorities@)[i]);
            }
            assert forall|i: int| 0 <= i < old(self)@.additional.len() implies record_ser_ok(
                #[trigger] old(self)@.additional[i],
            ) by {
                assert(old(self)@.additional[i] == rs_view(self.additional@)[i]);
            }
            assert(packet_ser_ok(old(self)@));
        }
        proof {
            let pv = self@;
            lemma_bytes_bits_concat(ser_header(pv.header), ser_questions(pv.questions));
            lemma_bytes_bits_concat(
                ser_header(pv.header) + ser_questions(pv.questions),
                ser_records(pv.answers),
            );
            lemma_bytes_bits_concat(
                ser_header(pv.header) + ser_questions(pv.questions) + ser_records(pv.answers),
                ser_records(pv.authorities),
            );
            lemma_bytes_bits_concat(
                ser_header(pv.header) + ser_questions(pv.questions) + ser_records(pv.answers)
                    + ser_records(pv.authorities),
                ser_records(pv.additional),
            );
            assert(bv_bits(buf) =~= bytes_bits(ser_packet(pv)));
            crate::bits::lemma_bytes_bits_len(ser_packet(pv));
        }
        Ok(buf)
    }
}

impl Packet {
    /// Parse a whole message from `buf`, appending the parsed sections onto
    /// this packet, replacing its header, and keeping the response flag set
    /// if the parsed flags carry the response bit.  On failure the packet is
    /// unchanged.  Octets after the advertised sections are ignored.
    pub fn deserialize(&mut self, buf: &[u8]) -> (res: Result<(), DnsParseError>)
        ensures
            parse_packet(buf@) matches Ok(pv) ==> res is Ok && final(self)@ == merge_parsed(
                old(self)@,
                pv,
            ),
            parse_packet(buf@) matches Err(e) ==> res == Err::<(), DnsParseError>(e) && *final(self)
                == *old(self),
    {
        let mut h = Header {
            id: 0,
            flags: 0,
            questions_count: 0,
            answers_count: 0,
            authorities_count: 0,
            additional_count: 0,
        };
        let _p1 = match h.deserialize(buf, 0) {
            Ok(j) => j,
            Err(e) => {
                return Err(e);
            },
        };
        let (mut qs, p2) = match parse_questions_exec(buf, _p1, h.questions_count) {
            Ok(x) => x,
            Err(e) => {
                return Err(e);
            },
        };
        let (mut ans, p3) = match parse_records_exec(buf, p2, h.answers_count) {
            Ok(x) => x,
            Err(e) => {
                return Err(e);
            },
        };
        let (mut auth, p4) = match parse_records_exec(buf, p3, h.authorities_count) {
            Ok(x) => x,
            Err(e) => {
                return Err(e);
            },
        };
        let (mut add, _p5) = match parse_records_exec(buf, p4, h.additional_count) {
            Ok(x) => x,
            Err(e) => {
                return Err(e);
            },
        };
        let ghost pre = self@;
        let ghost qsv = qs@;
        let ghost ansv = ans@;
        let ghost authv = auth@;
        let ghost addv = add@;
        self.header = h;
        let ghost qs0 = self.questions@;
        self.questions.append(&mut qs);
        let ghost an0 = self.answers@;
        self.answers.append(&mut ans);
        let ghost au0 = self.authorities@;
        self.authorities.append(&mut auth);
        let ghost ad0 = self.additional@;
        self.additional.append(&mut add);
        if h.flags & 0x8000 == 0x8000 {
            self.is_response = true;
        }
        proof {
            let pv = parse_packet(buf@)->Ok_0;
            lemma_qs_view_concat(qs0, qsv);
            lemma_rs_view_concat(an0, ansv);
            lemma_rs_view_concat(au0, authv);
            lemma_rs_view_concat(ad0, addv);
            assert(self@ == merge_parsed(pre, pv));
        }
        Ok(())
    }

    /// Serialise the whole message straight to octets: exactly the wire
    /// image of the message as left behind (header synthesised).
    pub fn serialize_bytes(&mut self, id: u16) -> (res: Result<Vec<u8>, DnsParseError>)
        ensures
            res is Ok <==> packet_ser_ok(old(self)@),
            res matches Ok(v) ==> {
                &&& final(self)@ == with_header(old(self)@, synth_header(old(self)@, id))
                &&& v@ == ser_packet(final(self)@)
            },
            res is Err ==> final(self)@.questions == old(self)@.questions && final(self)@.answers
                == old(self)@.answers && final(self)@.authorities == old(self)@.authorities
                && final(self)@.additional == old(self)@.additional && final(self)@.is_response
                == old(self)@.is_response,
    {
        match self.serialize(id) {
            Ok(buf) => {
                let v = buf.to_bytes();
                proof {
                    crate::bits::lemma_bytes_bits_injective(v@, ser_packet(self@));
                }
                Ok(v)
            },
            Err(e) => Err(e),
        }
    }
}

// ---------------------------------------------------------------------------
// Steganographic embedding and extraction.
// ---------------------------------------------------------------------------

/// The cover label `baidu`.
pub open spec fn baidu_label() -> Seq<u8> {
    seq![98u8, 97u8, 105u8, 100u8, 117u8]
}

/// The cover label `com`.
pub open spec fn com_label() -> Seq<u8> {
    seq![99u8, 111u8, 109u8]
}

/// The cover label `reply`.
pub open spec fn reply_label() -> Seq<u8> {
    seq![114u8, 101u8, 112u8, 108u8, 121u8]
}

/// The carrier question for one payload chunk: its first label is the base32
/// text of the chunk, under the cover name.
pub open spec fn carrier_question(chunk: Seq<u8>) -> QuestionV {
    QuestionV {
        name: NameV::Labels(seq![crate::base32::base32_enc(chunk), baidu_label(), com_label()]),
        qtype: RecordType::A,
        qclass: RecordClass::IN,
    }
}

/// A carrier question of the expected shape: three labels, each of one to
/// 63 octets, type A, class IN.
pub open spec fn carrier_sized(q: QuestionV) -> bool {
    &&& q.name matches NameV::Labels(ls) && ls.len() == 3 && (forall|k: int|
        0 <= k < ls.len() ==> 1 <= (#[trigger] ls[k]).len() <= 63)
    &&& q.qtype == RecordType::A
    &&& q.qclass == RecordClass::IN
}

/// The questions that embedding a request produces: one carrier question per
/// chunk of up to five octets.
pub open spec fn req_questions(data: Seq<u8>) -> Seq<QuestionV>
    decreases data.len(),
{
    if data.len() == 0 {
        Seq::empty()
    } else if data.len() < 5 {
        seq![carrier_question(data)]
    } else {
        seq![carrier_question(data.subrange(0, 5))] + req_questions(data.skip(5))
    }
}

/// What request-side extraction yields from a question sequence: the
/// base32-decoded first labels, concatenated in order.
pub open spec fn req_extract(qs: Seq<QuestionV>) -> Result<Seq<u8>, DnsParseError>
    decreases qs.len(),
{
    if qs.len() == 0 {
        Ok(Seq::empty())
    } else {
        match qs[0].name {
            NameV::Labels(ls) => if ls.len() == 0 || ls[0].len() > 63 {
                Err(DnsParseError::StreamFormatError)
            } else {
                match crate::base32::base32_dec(ls[0]) {
                    Some(chunk) => match req_extract(qs.drop_first()) {
                        Ok(rest) => Ok(chunk + rest),
                        Err(e) => Err(e),
                    },
                    None => Err(DnsParseError::StreamFormatError),
                }
            },
            NameV::Ptr(_) => Err(DnsParseError::PointerInCarrier),
        }
    }
}

/// How many payload octets one answer record carries for each type.
pub open spec fn chunk_size(t: RecordType) -> int {
    match t {
        RecordType::A => 4,
        RecordType::AAAA => 16,
    }
}

/// The first `k` octets, or all of them when fewer remain.
pub open spec fn take_up_to(data: Seq<u8>, k: int) -> Seq<u8> {
    if data.len() <= k {
        data
    } else {
        data.subrange(0, k)
    }
}

/// What remains after `take_up_to`.
pub open spec fn skip_up_to(data: Seq<u8>, k: int) -> Seq<u8> {
    if data.len() <= k {
        Seq::empty()
    } else {
        data.subrange(k, data.len() as int)
    }
}

/// The answer that mirrors one question and carries the next payload chunk.
pub open spec fn answer_record(q: QuestionV, data: Seq<u8>) -> RecordV {
    RecordV {
        name: q.name,
        rtype: q.qtype,
        rclass: q.qclass,
        ttl: 256u32,
        data_length: chunk_size(q.qtype) as u16,
        data: take_up_to(data, chunk_size(q.qtype)),
    }
}

/// The answer records of a response: one per mirrored question, each taking
/// the next chunk of the payload.
pub open spec fn resp_answers(qs: Seq<QuestionV>, data: Seq<u8>) -> Seq<RecordV>
    decreases qs.len(),
{
    if qs.len() == 0 {
        Seq::empty()
    } else {
        seq![answer_record(qs[0], data)] + resp_answers(
            qs.drop_first(),
            skip_up_to(data, chunk_size(qs[0].qtype)),
        )
    }
}

/// The payload octets left after the answer records took their chunks.
pub open spec fn resp_leftover(qs: Seq<QuestionV>, data: Seq<u8>) -> Seq<u8>
    decreases qs.len(),
{
    if qs.len() == 0 {
        data
    } else {
        resp_leftover(qs.drop_first(), skip_up_to(data, chunk_size(qs[0].qtype)))
    }
}

/// One additional record under the fixed cover name, carrying up to sixteen
/// payload octets.
pub open spec fn extra_record(chunk: Seq<u8>) -> RecordV {
    RecordV {
        name: NameV::Labels(seq![reply_label(), com_label()]),
        rtype: RecordType::AAAA,
        rclass: RecordClass::IN,
        ttl: 256u32,
        data_length: 16u16,
        data: chunk,
    }
}

/// The additional records that carry whatever payload the answers did not.
pub open spec fn resp_additionals(data: Seq<u8>) -> Seq<RecordV>
    decreases data.len(),
{
    if data.len() == 0 {
        Seq::empty()
    } else {
        seq![extra_record(take_up_to(data, 16))] + resp_additionals(skip_up_to(data, 16))
    }
}

/// The RDATA of the records, concatenated in order.
pub open spec fn rdata_concat(rs: Seq<RecordV>) -> Seq<u8>
    decreases rs.len(),
{
    if rs.len() == 0 {
        Seq::empty()
    } else {
        rs[0].data + rdata_concat(rs.drop_first())
    }
}

/// Appending a question whose first label decodes to `chunk` extends the
/// extracted payload by `chunk`.
proof fn lemma_req_extract_snoc(qs: Seq<QuestionV>, q: QuestionV, chunk: Seq<u8>)
    requires
        req_extract(qs) matches Ok(p),
        q.name matches NameV::Labels(ls) && ls.len() > 0 && ls[0].len() <= 63
            && crate::base32::base32_dec(ls[0]) == Some(chunk),
    ensures
        req_extract(qs.push(q)) == Ok::<Seq<u8>, DnsParseError>(req_extract(qs)->Ok_0 + chunk),
    decreases qs.len(),
{
    if qs.len() == 0 {
        assert(qs.push(q)[0] == q);
        assert(qs.push(q).drop_first() =~= Seq::<QuestionV>::empty());
        assert(req_extract(Seq::<QuestionV>::empty()) == Ok::<Seq<u8>, DnsParseError>(
            Seq::empty(),
        ));
        assert(req_extract(qs.push(q)) == Ok::<Seq<u8>, DnsParseError>(chunk + Seq::empty()));
        assert(chunk + Seq::<u8>::empty() =~= chunk);
        assert(Seq::<u8>::empty() + chunk =~= chunk);
    } else {
        assert(qs.push(q)[0] == qs[0]);
        assert(qs.push(q).drop_first() =~= qs.drop_first().push(q));
        lemma_req_extract_snoc(qs.drop_first(), q, chunk);
        let p0 = req_extract(qs)->Ok_0;
        let ls0 = qs[0].name->Labels_0;
        let c0 = crate::base32::base32_dec(ls0[0])->Some_0;
        let prest = req_extract(qs.drop_first())->Ok_0;
        assert(p0 == c0 + prest);
        assert(c0 + (prest + chunk) =~= (c0 + prest) + chunk);
    }
}

/// Copy a byte vector.
fn copy_bytes(v: &Vec<u8>) -> (r: Vec<u8>)
    ensures
        r@ == v@,
{
    vstd::slice::slice_to_vec(v.as_slice())
}

/// Copy a name.
fn copy_name(n: &DnsName) -> (r: DnsName)
    ensures
        r@ == n@,
{
    match n {
        DnsName::Str(ls) => {
            let mut out: Vec<Vec<u8>> = Vec::new();
            let mut i: usize = 0;
            while i < ls.len()
                invariant
                    i <= ls.len(),
                    out@.len() == i,
                    forall|k: int| 0 <= k < i ==> out@[k]@ == ls@[k]@,
                decreases ls.len() - i,
            {
                out.push(copy_bytes(&ls[i]));
                i = i + 1;
            }
            proof {
                assert(labels_view(out@) =~= labels_view(ls@));
            }
            DnsName::Str(out)
        },
        DnsName::Offset(o) => DnsName::Offset(*o),
    }
}

/// Copy a question sequence.
fn copy_questions(qs: &Vec<Question>) -> (r: Vec<Question>)
    ensures
        qs_view(r@) == qs_view(qs@),
{
    let mut out: Vec<Question> = Vec::new();
    let mut i: usize = 0;
    while i < qs.len()
        invariant
            i <= qs.len(),
            out@.len() == i,
            forall|k: int| 0 <= k < i ==> (#[trigger] out@[k])@ == qs@[k]@,
        decreases qs.len() - i,
    {
        let nm = copy_name(&qs[i].qname);
        let q = Question { qname: nm, qtype: qs[i].qtype, qclass: qs[i].qclass };
        out.push(q);
        i = i + 1;
    }
    proof {
        assert(qs_view(out@) =~= qs_view(qs@));
    }
    out
}

impl Packet {
    /// Hide `data` in this message.  In a request, each chunk of up to five
    /// octets becomes the base32 first label of a fresh carrier question.
    /// In a response, the given request's questions are mirrored verbatim,
    /// one answer per question carries the next four (type A) or sixteen
    /// (type AAAA) octets, and additional records under the fixed cover name
    /// carry whatever is left.
    #[verifier::loop_isolation(false)]
    #[verifier::rlimit(80)]
    pub fn embed_data(&mut self, data: &[u8], request: Option<&Packet>) -> (res: Result<
        (),
        DnsParseError,
    >)
        requires
            old(self).is_response ==> request is Some,
        ensures
            res is Ok,
            !old(self)@.is_response ==> {
                &&& final(self)@.questions == old(self)@.questions + req_questions(data@)
                &&& final(self)@.answers == old(self)@.answers
                &&& final(self)@.authorities == old(self)@.authorities
                &&& final(self)@.additional == old(self)@.additional
                &&& final(self)@.header == old(self)@.header
                &&& final(self)@.is_response == old(self)@.is_response
            },
            !old(self)@.is_response && old(self)@.questions.len() == 0 ==> req_extract(
                final(self)@.questions,
            ) == Ok::<Seq<u8>, DnsParseError>(data@),
            !old(self)@.is_response ==> forall|i: int|
                old(self)@.questions.len() <= i < final(self)@.questions.len()
                    ==> carrier_sized(#[trigger] final(self)@.questions[i]),
            old(self)@.is_response ==> {
                let reqv = (request->Some_0)@;
                &&& final(self)@.questions == reqv.questions
                &&& final(self)@.answers == old(self)@.answers + resp_answers(
                    reqv.questions,
                    data@,
                )
                &&& final(self)@.additional == old(self)@.additional + resp_additionals(
                    resp_leftover(reqv.questions, data@),
                )
                &&& final(self)@.authorities == old(self)@.authorities
                &&& final(self)@.header == old(self)@.header
                &&& final(self)@.is_response == old(self)@.is_response
            },
    {
        if self.is_response {
            let req = match request {
                Some(r) => r,
                None => {
                    proof {
                        assert(false);
                    }
                    return Err(DnsParseError::StreamFormatError);
                },
            };
            self.questions = copy_questions(&req.questions);
            let ghost qsv = req@.questions;
            let ghost an0 = self@.answers;
            let mut di: usize = 0;
            let mut i: usize = 0;
            proof {
                assert(qsv.skip(0) =~= qsv);
                assert(data@.skip(0) =~= data@);
                assert(an0 + Seq::<RecordV>::empty() =~= an0);
                assert(rs_view(self.answers@) == an0);
            }
            while i < self.questions.len()
                invariant
                    i <= self.questions@.len(),
                    di <= data@.len(),
                    qs_view(self.questions@) == qsv,
                    rs_view(self.answers@) + resp_answers(qsv.skip(i as int), data@.skip(di as int))
                        == an0 + resp_answers(qsv, data@),
                    resp_leftover(qsv.skip(i as int), data@.skip(di as int)) == resp_leftover(
                        qsv,
                        data@,
                    ),
                    self@.authorities == old(self)@.authorities,
                    self@.additional == old(self)@.additional,
                    self@.header == old(self)@.header,
                    self@.is_response == old(self)@.is_response,
                decreases self.questions@.len() - i,
            {
                let k: usize = match self.questions[i].qtype {
                    RecordType::A => 4,
                    RecordType::AAAA => 16,
                };
                let remaining = data.len() - di;
                let take: usize = if remaining < k {
                    remaining
                } else {
                    k
                };
                let chunk = vstd::slice::slice_to_vec(
                    vstd::slice::slice_subrange(data, di, di + take),
                );
                let nm = copy_name(&self.questions[i].qname);
                let rec = Record {
                    rname: nm,
                    rtype: self.questions[i].qtype,
                    rclass: self.questions[i].qclass,
                    ttl: 256,
                    data_length: k as u16,
                    data: chunk,
                };
                let ghost an_pre = rs_view(self.answers@);
                self.answers.push(rec);
                proof {
                    let qv = qsv[i as int];
                    assert(qv == self.questions@[i as int]@);
                    let rem = data@.skip(di as int);
                    assert(rec@ == answer_record(qv, rem)) by {
                        assert(take_up_to(rem, chunk_size(qv.qtype)) =~= data@.subrange(
                            di as int,
                            di + take,
                        ));
                    }
                    let tail = qsv.skip(i as int);
                    assert(tail[0] == qv);
                    assert(tail.drop_first() =~= qsv.skip(i + 1));
                    assert(skip_up_to(rem, chunk_size(qv.qtype)) =~= data@.skip(di + take));
                    assert(resp_answers(tail, rem) == seq![answer_record(qv, rem)] + resp_answers(
                        qsv.skip(i + 1),
                        data@.skip(di + take),
                    ));
                    assert(rs_view(self.answers@) =~= an_pre + seq![rec@]);
                    assert(rs_view(self.answers@) + resp_answers(qsv.skip(i + 1), data@.skip(di + take))
                        =~= an_pre + resp_answers(tail, rem));
                    assert(resp_leftover(tail, rem) == resp_leftover(
                        qsv.skip(i + 1),
                        data@.skip(di + take),
                    ));
                }
                di = di + take;
                i = i + 1;
            }
            proof {
                assert(qsv.skip(self.questions@.len() as int) =~= Seq::<QuestionV>::empty());
                assert(resp_answers(Seq::<QuestionV>::empty(), data@.skip(di as int))
                    =~= Seq::<RecordV>::empty());
                assert(rs_view(self.answers@) + Seq::<RecordV>::empty() =~= rs_view(
                    self.answers@,
                ));
                assert(data@.skip(di as int) == resp_leftover(qsv, data@));
            }
            let ghost rem0 = data@.skip(di as int);
            let ghost ad0 = self@.additional;
            proof {
                assert(ad0 + Seq::<RecordV>::empty() =~= ad0);
            }
            let ghost di0 = di as int;
            while di < data.len()
                invariant
                    di0 <= di <= data@.len(),
                    rs_view(self.additional@) + resp_additionals(data@.skip(di as int)) == ad0
                        + resp_additionals(rem0),
                    qs_view(self.questions@) == qsv,
                    rs_view(self.answers@) == an0 + resp_answers(qsv, data@),
                    self@.authorities == old(self)@.authorities,
                    self@.header == old(self)@.header,
                    self@.is_response == old(self)@.is_response,
                decreases data@.len() - di,
            {
                let remaining = data.len() - di;
                let take: usize = if remaining < 16 {
                    remaining
                } else {
                    16
                };
                let chunk = vstd::slice::slice_to_vec(
                    vstd::slice::slice_subrange(data, di, di + take),
                );
                let mut nls: Vec<Vec<u8>> = Vec::new();
                nls.push(make_reply());
                nls.push(make_com());
                let rec = Record {
                    rname: DnsName::Str(nls),
                    rtype: RecordType::AAAA,
                    rclass: RecordClass::IN,
                    ttl: 256,
                    data_length: 16,
                    data: chunk,
                };
                let ghost ad_pre = rs_view(self.additional@);
                self.additional.push(rec);
                proof {
                    let rem = data@.skip(di as int);
                    assert(rec@ == extra_record(take_up_to(rem, 16))) by {
                        assert(labels_view(rec.rname->Str_0@) =~= seq![
                            reply_label(),
                            com_label(),
                        ]);
                        assert(take_up_to(rem, 16) =~= data@.subrange(di as int, di + take));
                    }
                    assert(skip_up_to(rem, 16) =~= data@.skip(di + take));
                    assert(resp_additionals(rem) == seq![extra_record(take_up_to(rem, 16))]
                        + resp_additionals(data@.skip(di + take)));
                    assert(rs_view(self.additional@) =~= ad_pre + seq![rec@]);
                    assert(rs_view(self.additional@) + resp_additionals(data@.skip(di + take))
                        =~= ad_pre + resp_additionals(rem));
                }
                di = di + take;
            }
            proof {
                assert(data@.skip(data@.len() as int) =~= Seq::<u8>::empty());
                assert(resp_additionals(Seq::<u8>::empty()) =~= Seq::<RecordV>::empty());
                assert(rs_view(self.additional@) + Seq::<RecordV>::empty() =~= rs_view(
                    self.additional@,
                ));
            }
            Ok(())
        } else {
            let ghost q0 = self@.questions;
            let mut i: usize = 0;
            proof {
                assert(data@.skip(0) =~= data@);
                assert(q0 + Seq::<QuestionV>::empty() =~= q0);
                assert(data@.take(0) =~= Seq::<u8>::empty());
                if q0.len() == 0 {
                    assert(qs_view(self.questions@) =~= Seq::<QuestionV>::empty());
                    assert(req_extract(qs_view(self.questions@)) == Ok::<Seq<u8>, DnsParseError>(
                        Seq::empty(),
                    ));
                }
            }
            while i < data.len()
                invariant
                    i <= data@.len(),
                    qs_view(self.questions@) + req_questions(data@.skip(i as int)) == q0
                        + req_questions(data@),
                    self@.answers == old(self)@.answers,
                    self@.authorities == old(self)@.authorities,
                    self@.additional == old(self)@.additional,
                    self@.header == old(self)@.header,
                    self@.is_response == old(self)@.is_response,
                    q0.len() == 0 ==> req_extract(qs_view(self.questions@)) == Ok::<
                        Seq<u8>,
                        DnsParseError,
                    >(data@.take(i as int)),
                    forall|k: int|
                        q0.len() <= k < qs_view(self.questions@).len() ==> carrier_sized(
                            #[trigger] qs_view(self.questions@)[k],
                        ),
                decreases data@.len() - i,
            {
                let remaining = data.len() - i;
                let take: usize = if remaining < 5 {
                    remaining
                } else {
                    5
                };
                let chunk = vstd::slice::slice_to_vec(
                    vstd::slice::slice_subrange(data, i, i + take),
                );
                let enc = crate::base32::b32_encode(chunk.as_slice());
                let mut nls: Vec<Vec<u8>> = Vec::new();
                nls.push(enc);
                nls.push(make_baidu());
                nls.push(make_com());
                let q = Question {
                    qname: DnsName::Str(nls),
                    qtype: RecordType::A,
                    qclass: RecordClass::IN,
                };
                let ghost qs_pre = qs_view(self.questions@);
                self.questions.push(q);
                proof {
                    let rem = data@.skip(i as int);
                    let chv = data@.subrange(i as int, i + take);
                    assert(chunk@ == chv);
                    assert(labels_view(q.qname->Str_0@) =~= seq![
                        crate::base32::base32_enc(chv),
                        baidu_label(),
                        com_label(),
                    ]);
                    assert(q@ == carrier_question(chv));
                    if rem.len() < 5 {
                        assert(chv =~= rem);
                        assert(req_questions(rem) == seq![carrier_question(rem)]);
                        assert(data@.skip(i + take) =~= Seq::<u8>::empty());
                        assert(req_questions(data@.skip(i + take)) =~= Seq::<QuestionV>::empty());
                        assert(seq![carrier_question(rem)] + Seq::<QuestionV>::empty()
                            =~= seq![q@]);
                    } else {
                        assert(chv =~= rem.subrange(0, 5));
                        assert(rem.skip(5) =~= data@.skip(i + take));
                        assert(req_questions(rem) == seq![carrier_question(rem.subrange(0, 5))]
                            + req_questions(rem.skip(5)));
                    }
                    assert(qs_view(self.questions@) =~= qs_pre + seq![q@]);
                    assert(qs_view(self.questions@) + req_questions(data@.skip(i + take)) =~= qs_pre
                        + req_questions(rem));
                    if q0.len() == 0 {
                        assert(qs_view(self.questions@) =~= qs_pre.push(q@));
                        lemma_req_extract_snoc(qs_pre, q@, chv);
                        assert(data@.take(i as int) + chv =~= data@.take(i + take));
                    }
                    assert(carrier_sized(q@));
                }
                i = i + take;
            }
            proof {
                assert(data@.skip(data@.len() as int) =~= Seq::<u8>::empty());
                assert(req_questions(Seq::<u8>::empty()) =~= Seq::<QuestionV>::empty());
                assert(qs_view(self.questions@) + Seq::<QuestionV>::empty() =~= qs_view(
                    self.questions@,
                ));
                assert(data@.take(data@.len() as int) =~= data@);
            }
            Ok(())
        }
    }

    /// Recover the hidden payload.  From a response: the RDATA of the
    /// answers, then of the additionals, concatenated.  From a request: the
    /// base32-decoded first label of each question, concatenated; a pointer
    /// name is a `PointerInCarrier` error, a missing, over-long or
    /// undecodable first label a format error.
    #[verifier::loop_isolation(false)]
    pub fn extract_data(&mut self) -> (res: Result<Vec<u8>, DnsParseError>)
        ensures
            *final(self) == *old(self),
            old(self)@.is_response ==> (res matches Ok(v) && v@ == rdata_concat(
                old(self)@.answers,
            ) + rdata_concat(old(self)@.additional)),
            !old(self)@.is_response ==> match req_extract(old(self)@.questions) {
                Ok(d) => (res matches Ok(v) && v@ == d),
                Err(e) => res == Err::<Vec<u8>, DnsParseError>(e),
            },
    {
        let mut out: Vec<u8> = Vec::new();
        if self.is_response {
            let ghost anv = self@.answers;
            let ghost adv = self@.additional;
            let mut i: usize = 0;
            proof {
                assert(anv.skip(0) =~= anv);
                assert(Seq::<u8>::empty() + rdata_concat(anv) =~= rdata_concat(anv));
            }
            while i < self.answers.len()
                invariant
                    i <= self.answers@.len(),
                    out@ + rdata_concat(anv.skip(i as int)) == rdata_concat(anv),
                decreases self.answers@.len() - i,
            {
                let mut part = copy_bytes(&self.answers[i].data);
                let ghost out_pre = out@;
                out.append(&mut part);
                proof {
                    let tail = anv.skip(i as int);
                    assert(tail[0] == anv[i as int]);
                    assert(anv[i as int] == self.answers@[i as int]@);
                    assert(tail.drop_first() =~= anv.skip(i + 1));
                    assert(rdata_concat(tail) == tail[0].data + rdata_concat(anv.skip(i + 1)));
                    assert(out@ + rdata_concat(anv.skip(i + 1)) =~= out_pre + rdata_concat(tail));
                }
                i = i + 1;
            }
            proof {
                assert(anv.skip(self.answers@.len() as int) =~= Seq::<RecordV>::empty());
                assert(rdata_concat(Seq::<RecordV>::empty()) =~= Seq::<u8>::empty());
                assert(out@ + Seq::<u8>::empty() =~= out@);
            }
            let ghost mid = out@;
            let mut j: usize = 0;
            proof {
                assert(adv.skip(0) =~= adv);
                assert(mid + rdata_concat(adv) =~= mid + rdata_concat(adv));
            }
            while j < self.additional.len()
                invariant
                    j <= self.additional@.len(),
                    out@ + rdata_concat(adv.skip(j as int)) == mid + rdata_concat(adv),
                decreases self.additional@.len() - j,
            {
                let mut part = copy_bytes(&self.additional[j].data);
                let ghost out_pre = out@;
                out.append(&mut part);
                proof {
                    let tail = adv.skip(j as int);
                    assert(tail[0] == adv[j as int]);
                    assert(adv[j as int] == self.additional@[j as int]@);
                    assert(tail.drop_first() =~= adv.skip(j + 1));
                    assert(rdata_concat(tail) == tail[0].data + rdata_concat(adv.skip(j + 1)));
                    assert(out@ + rdata_concat(adv.skip(j + 1)) =~= out_pre + rdata_concat(tail));
                }
                j = j + 1;
            }
            proof {
                assert(adv.skip(self.additional@.len() as int) =~= Seq::<RecordV>::empty());
                assert(rdata_concat(Seq::<RecordV>::empty()) =~= Seq::<u8>::empty());
                assert(out@ + Seq::<u8>::empty() =~= out@);
            }
            Ok(out)
        } else {
            let ghost qsv = self@.questions;
            let mut i: usize = 0;
            proof {
                assert(qsv.skip(0) =~= qsv);
            }
            while i < self.questions.len()
                invariant
                    i <= self.questions@.len(),
                    match req_extract(qsv.skip(i as int)) {
                        Ok(rest) => req_extract(qsv) == Ok::<Seq<u8>, DnsParseError>(out@ + rest),
                        Err(e) => req_extract(qsv) == Err::<Seq<u8>, DnsParseError>(e),
                    },
                decreases self.questions@.len() - i,
            {
                proof {
                    let tail = qsv.skip(i as int);
                    assert(tail[0] == qsv[i as int]);
                    assert(qsv[i as int] == self.questions@[i as int]@);
                    assert(tail.drop_first() =~= qsv.skip(i + 1));
                }
                match &self.questions[i].qname {
                    DnsName::Str(ls) => {
                        if ls.len() == 0 {
                            return Err(DnsParseError::StreamFormatError);
                        }
                        if ls[0].len() > 63 {
                            return Err(DnsParseError::StreamFormatError);
                        }
                        proof {
                            assert(labels_view(ls@)[0] == ls@[0]@);
                        }
                        match crate::base32::b32_decode(ls[0].as_slice()) {
                            Some(mut chunk) => {
                                let ghost chv = chunk@;
                                let ghost out_pre = out@;
                                out.append(&mut chunk);
                                proof {
                                    let tail = qsv.skip(i as int);
                                    let ls0 = tail[0].name->Labels_0;
                                    assert(ls0[0] == ls@[0]@);
                                    assert(crate::base32::base32_dec(ls0[0]) == Some(chv));
                                    if req_extract(qsv.skip(i + 1)) is Ok {
                                        let rest = req_extract(qsv.skip(i + 1))->Ok_0;
                                        assert(out@ + rest =~= out_pre + (chv + rest));
                                    }
                                }
                            },
                            None => {
                                return Err(DnsParseError::StreamFormatError);
                            },
                        }
                    },
                    DnsName::Offset(_) => {
                        return Err(DnsParseError::PointerInCarrier);
                    },
                }
                i = i + 1;
            }
            proof {
                assert(qsv.skip(self.questions@.len() as int) =~= Seq::<QuestionV>::empty());
                assert(out@ + Seq::<u8>::empty() =~= out@);
            }
            Ok(out)
        }
    }
}

/// The literal label `baidu`.
fn make_baidu() -> (r: Vec<u8>)
    ensures
        r@ == baidu_label(),
{
    let mut v: Vec<u8> = Vec::new();
    v.push(98);
    v.push(97);
    v.push(105);
    v.push(100);
    v.push(117);
    proof {
        assert(v@ =~= baidu_label());
    }
    v
}

/// The literal label `com`.
fn make_com() -> (r: Vec<u8>)
    ensures
        r@ == com_label(),
{
    let mut v: Vec<u8> = Vec::new();
    v.push(99);
    v.push(111);
    v.push(109);
    proof {
        assert(v@ =~= com_label());
    }
    v
}

/// The literal label `reply`.
fn make_reply() -> (r: Vec<u8>)
    ensures
        r@ == reply_label(),
{
    let mut v: Vec<u8> = Vec::new();
    v.push(114);
    v.push(101);
    v.push(112);
    v.push(108);
    v.push(121);
    proof {
        assert(v@ =~= reply_label());
    }
    v
}

impl Default for Packet {
    /// An empty request message with a zeroed header.
    fn default() -> (r: Packet)
        ensures
            r@.questions.len() == 0,
            r@.answers.len() == 0,
            r@.authorities.len() == 0,
            r@.additional.len() == 0,
            !r@.is_response,
            r@.header == (Header {
                id: 0u16,
                flags: 0u16,
                questions_count: 0u16,
                answers_count: 0u16,
                authorities_count: 0u16,
                additional_count: 0u16,
            }),
    {
        Packet::new(false)
    }
}

/// `qs_view` distributes over concatenation.
proof fn lemma_qs_view_concat(a: Seq<Question>, b: Seq<Question>)
    ensures
        qs_view(a + b) == qs_view(a) + qs_view(b),
{
    assert(qs_view(a + b) =~= qs_view(a) + qs_view(b));
}

/// `rs_view` distributes over concatenation.
proof fn lemma_rs_view_concat(a: Seq<Record>, b: Seq<Record>)
    ensures
        rs_view(a + b) == rs_view(a) + rs_view(b),
{
    assert(rs_view(a + b) =~= rs_view(a) + rs_view(b));
}

} // verus!
