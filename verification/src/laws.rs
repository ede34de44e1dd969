//! Codec laws: serialising a well-formed message and parsing the result
//! gives the message back, with the header synthesised by serialisation and
//! each record's RDATA zero-padded to its declared length; and a parsed
//! header's counts always equal the parsed section lengths.

use vstd::prelude::*;
use crate::bits::{lemma_u16_be_inverse, lemma_u32_be_inverse, u16_be, u32_be};
use crate::payload::{lemma_trim_zeros_suffix, trim_zeros};
use crate::dns_packet::{
    answer_record, chunk_size, extra_record, rdata_concat, resp_additionals, resp_answers,
    resp_leftover, skip_up_to, take_up_to, req_extract, req_questions,
    cat_labels, class_val, counts_ok, parse_header, parse_labels, parse_packet, parse_question,
    parse_questions_n, parse_rclass, parse_record, parse_records_n, parse_rtype, parse_u16,
    parse_u32, ser_header, ser_label, ser_name, ser_packet, ser_question, ser_questions,
    ser_record, ser_records, synth_header, type_val, with_header, zeros, DnsParseError, Header,
    NameV, PacketV, QuestionV, RecordClass, RecordType, RecordV,
};

verus! {

/// A name that survives the round trip: label shape, each label 1..=63 octets.
pub open spec fn name_rt_ok(n: NameV) -> bool {
    match n {
        NameV::Labels(ls) => forall|i: int|
            0 <= i < ls.len() ==> 1 <= (#[trigger] ls[i]).len() <= 63,
        NameV::Ptr(_) => false,
    }
}

pub open spec fn record_rt_ok(r: RecordV) -> bool {
    name_rt_ok(r.name) && r.data.len() <= r.data_length
}

/// A message that survives the round trip.
pub open spec fn packet_rt_ok(p: PacketV) -> bool {
    &&& counts_ok(p)
    &&& forall|i: int| 0 <= i < p.questions.len() ==> name_rt_ok(#[trigger] p.questions[i].name)
    &&& forall|i: int| 0 <= i < p.answers.len() ==> record_rt_ok(#[trigger] p.answers[i])
    &&& forall|i: int| 0 <= i < p.authorities.len() ==> record_rt_ok(#[trigger] p.authorities[i])
    &&& forall|i: int| 0 <= i < p.additional.len() ==> record_rt_ok(#[trigger] p.additional[i])
}

/// The record as it comes back from the wire: RDATA zero-padded to the
/// declared length.
pub open spec fn pad_record(r: RecordV) -> RecordV {
    RecordV { data: r.data + zeros((r.data_length - r.data.len()) as nat), ..r }
}

pub open spec fn pad_records(rs: Seq<RecordV>) -> Seq<RecordV> {
    rs.map_values(|r: RecordV| pad_record(r))
}

/// The message as it comes back from the wire.
pub open spec fn normalize(p: PacketV, id: u16) -> PacketV {
    PacketV {
        header: synth_header(p, id),
        questions: p.questions,
        answers: pad_records(p.answers),
        authorities: pad_records(p.authorities),
        additional: pad_records(p.additional),
        is_response: p.is_response,
    }
}

pub proof fn lemma_zeros_len(n: nat)
    ensures
        zeros(n).len() == n,
    decreases n,
{
    if n > 0 {
        lemma_zeros_len((n - 1) as nat);
    }
}

/// If a window of `s` spells `a + b`, the two sub-windows spell `a` and `b`.
proof fn lemma_split_at(s: Seq<u8>, i: int, a: Seq<u8>, b: Seq<u8>)
    requires
        0 <= i,
        i + a.len() + b.len() <= s.len(),
        s.subrange(i, i + a.len() + b.len()) == a + b,
    ensures
        s.subrange(i, i + a.len()) == a,
        s.subrange(i + a.len(), i + a.len() + b.len()) == b,
{
    assert forall|k: int| 0 <= k < a.len() implies s.subrange(i, i + a.len())[k] == a[k] by {
        assert(s.subrange(i, i + a.len() + b.len())[k] == s[i + k]);
    }
    assert(s.subrange(i, i + a.len()) =~= a);
    assert forall|k: int| 0 <= k < b.len() implies s.subrange(
        i + a.len(),
        i + a.len() + b.len(),
    )[k] == b[k] by {
        assert(s.subrange(i, i + a.len() + b.len())[a.len() + k] == s[i + a.len() + k]);
        assert((a + b)[a.len() + k] == b[k]);
    }
    assert(s.subrange(i + a.len(), i + a.len() + b.len()) =~= b);
}

proof fn lemma_parse_u16_at(s: Seq<u8>, i: int, v: u16)
    requires
        0 <= i,
        i + 2 <= s.len(),
        s.subrange(i, i + 2) == u16_be(v),
    ensures
        parse_u16(s, i) == Ok::<(u16, int), DnsParseError>((v, i + 2)),
{
    assert(s[i] == u16_be(v)[0]) by {
        assert(s.subrange(i, i + 2)[0] == s[i]);
    }
    assert(s[i + 1] == u16_be(v)[1]) by {
        assert(s.subrange(i, i + 2)[1] == s[i + 1]);
    }
    lemma_u16_be_inverse(v);
}

proof fn lemma_parse_u32_at(s: Seq<u8>, i: int, v: u32)
    requires
        0 <= i,
        i + 4 <= s.len(),
        s.subrange(i, i + 4) == u32_be(v),
    ensures
        parse_u32(s, i) == Ok::<(u32, int), DnsParseError>((v, i + 4)),
{
    assert(s[i] == u32_be(v)[0]) by {
        assert(s.subrange(i, i + 4)[0] == s[i]);
    }
    assert(s[i + 1] == u32_be(v)[1]) by {
        assert(s.subrange(i, i + 4)[1] == s[i + 1]);
    }
    assert(s[i + 2] == u32_be(v)[2]) by {
        assert(s.subrange(i, i + 4)[2] == s[i + 2]);
    }
    assert(s[i + 3] == u32_be(v)[3]) by {
        assert(s.subrange(i, i + 4)[3] == s[i + 3]);
    }
    lemma_u32_be_inverse(v);
}

proof fn lemma_parse_rtype_at(s: Seq<u8>, i: int, t: RecordType)
    requires
        0 <= i,
        i + 2 <= s.len(),
        s.subrange(i, i + 2) == u16_be(type_val(t)),
    ensures
        parse_rtype(s, i) == Ok::<(RecordType, int), DnsParseError>((t, i + 2)),
{
    lemma_parse_u16_at(s, i, type_val(t));
}

proof fn lemma_parse_rclass_at(s: Seq<u8>, i: int, c: RecordClass)
    requires
        0 <= i,
        i + 2 <= s.len(),
        s.subrange(i, i + 2) == u16_be(class_val(c)),
    ensures
        parse_rclass(s, i) == Ok::<(RecordClass, int), DnsParseError>((c, i + 2)),
{
    lemma_parse_u16_at(s, i, class_val(c));
}

proof fn lemma_parse_header_at(s: Seq<u8>, i: int, h: Header)
    requires
        0 <= i,
        i + 12 <= s.len(),
        s.subrange(i, i + 12) == ser_header(h),
    ensures
        parse_header(s, i) == Ok::<(Header, int), DnsParseError>((h, i + 12)),
{
    assert forall|k: int| 0 <= k < 12 implies s[i + k] == ser_header(h)[k] by {
        assert(s.subrange(i, i + 12)[k] == s[i + k]);
    }
    lemma_u16_be_inverse(h.id);
    lemma_u16_be_inverse(h.flags);
    lemma_u16_be_inverse(h.questions_count);
    lemma_u16_be_inverse(h.answers_count);
    lemma_u16_be_inverse(h.authorities_count);
    lemma_u16_be_inverse(h.additional_count);
    assert(ser_header(h)[0] == u16_be(h.id)[0]);
    assert(ser_header(h)[1] == u16_be(h.id)[1]);
    assert(ser_header(h)[2] == u16_be(h.flags)[0]);
    assert(ser_header(h)[3] == u16_be(h.flags)[1]);
    assert(ser_header(h)[4] == u16_be(h.questions_count)[0]);
    assert(ser_header(h)[5] == u16_be(h.questions_count)[1]);
    assert(ser_header(h)[6] == u16_be(h.answers_count)[0]);
    assert(ser_header(h)[7] == u16_be(h.answers_count)[1]);
    assert(ser_header(h)[8] == u16_be(h.authorities_count)[0]);
    assert(ser_header(h)[9] == u16_be(h.authorities_count)[1]);
    assert(ser_header(h)[10] == u16_be(h.additional_count)[0]);
    assert(ser_header(h)[11] == u16_be(h.additional_count)[1]);
}

proof fn lemma_parse_labels_at(s: Seq<u8>, i: int, ls: Seq<Seq<u8>>)
    requires
        0 <= i,
        i + cat_labels(ls).len() + 1 <= s.len(),
        s.subrange(i, i + cat_labels(ls).len() + 1) == cat_labels(ls) + seq![0u8],
        forall|k: int| 0 <= k < ls.len() ==> 1 <= (#[trigger] ls[k]).len() <= 63,
    ensures
        parse_labels(s, i) == Ok::<(Seq<Seq<u8>>, int), DnsParseError>(
            (ls, i + cat_labels(ls).len() + 1),
        ),
    decreases ls.len(),
{
    if ls.len() == 0 {
        assert(cat_labels(ls) =~= Seq::<u8>::empty());
        assert(s[i] == (cat_labels(ls) + seq![0u8])[0]) by {
            assert(s.subrange(i, i + cat_labels(ls).len() + 1)[0] == s[i]);
        }
        assert(s[i] == 0);
        assert(parse_labels(s, i) == Ok::<(Seq<Seq<u8>>, int), DnsParseError>(
            (Seq::<Seq<u8>>::empty(), i + 1),
        ));
        assert(ls =~= Seq::<Seq<u8>>::empty());
    } else {
        let l0 = ls[0];
        let rest = ls.drop_first();
        let big = cat_labels(ls).len() + 1;
        let body = cat_labels(ls) + seq![0u8];
        assert(cat_labels(ls) == ser_label(l0) + cat_labels(rest));
        assert(ser_label(l0).len() == 1 + l0.len());
        assert(1 <= l0.len() <= 63);
        assert(s[i] == body[0]) by {
            assert(s.subrange(i, i + big)[0] == s[i]);
        }
        assert(body[0] == l0.len() as u8) by {
            assert(ser_label(l0)[0] == l0.len() as u8);
        }
        assert(s[i] as int == l0.len());
        assert(s[i] != 0 && s[i] < 64);
        let li = l0.len() as int;
        assert forall|k: int| 0 <= k < li implies s.subrange(i + 1, i + 1 + li)[k] == l0[k] by {
            assert(s.subrange(i, i + big)[1 + k] == s[i + 1 + k]);
            assert(body[1 + k] == ser_label(l0)[1 + k]);
            assert(ser_label(l0)[1 + k] == l0[k]);
        }
        assert(s.subrange(i + 1, i + 1 + li) =~= l0);
        let i2 = i + 1 + li;
        let small = cat_labels(rest).len() + 1;
        assert forall|k: int| 0 <= k < small implies s.subrange(i2, i2 + small)[k] == (cat_labels(
            rest,
        ) + seq![0u8])[k] by {
            assert(s.subrange(i, i + big)[1 + li + k] == s[i2 + k]);
            if k < cat_labels(rest).len() {
                assert(body[1 + li + k] == cat_labels(ls)[1 + li + k]);
                assert(cat_labels(ls)[1 + li + k] == cat_labels(rest)[k]);
            } else {
                assert(body[1 + li + k] == 0u8);
            }
        }
        assert(s.subrange(i2, i2 + small) =~= cat_labels(rest) + seq![0u8]);
        assert forall|k: int| 0 <= k < rest.len() implies 1 <= (#[trigger] rest[k]).len()
            <= 63 by {
            assert(rest[k] == ls[k + 1]);
        }
        lemma_parse_labels_at(s, i2, rest);
        assert(i + 1 + s[i] == i2);
        assert(parse_labels(s, i) == Ok::<(Seq<Seq<u8>>, int), DnsParseError>(
            (seq![s.subrange(i + 1, i2)] + rest, i2 + small),
        ));
        assert(seq![s.subrange(i + 1, i2)] + rest =~= ls);
        assert(i2 + small == i + big);
    }
}

proof fn lemma_parse_question_at(s: Seq<u8>, i: int, q: QuestionV)
    requires
        name_rt_ok(q.name),
        0 <= i,
        i + ser_question(q).len() <= s.len(),
        s.subrange(i, i + ser_question(q).len()) == ser_question(q),
    ensures
        parse_question(s, i) == Ok::<(QuestionV, int), DnsParseError>(
            (q, i + ser_question(q).len()),
        ),
{
    let n = ser_name(q.name);
    let t = u16_be(type_val(q.qtype));
    let c = u16_be(class_val(q.qclass));
    assert(ser_question(q) == n + t + c);
    assert((n + t + c) =~= n + (t + c));
    lemma_split_at(s, i, n, t + c);
    lemma_split_at(s, i + n.len(), t, c);
    let ls = q.name->Labels_0;
    assert(n == cat_labels(ls) + seq![0u8]);
    assert(n.len() == cat_labels(ls).len() + 1);
    lemma_parse_labels_at(s, i, ls);
    lemma_parse_rtype_at(s, i + n.len(), q.qtype);
    lemma_parse_rclass_at(s, i + n.len() + 2, q.qclass);
    assert(parse_question(s, i) == Ok::<(QuestionV, int), DnsParseError>(
        (
            QuestionV { name: NameV::Labels(ls), qtype: q.qtype, qclass: q.qclass },
            i + n.len() + 4,
        ),
    ));
    assert(QuestionV { name: NameV::Labels(ls), qtype: q.qtype, qclass: q.qclass } == q);
    assert(i + n.len() + 4 == i + ser_question(q).len());
}

#[verifier::rlimit(60)]
proof fn lemma_parse_record_at(s: Seq<u8>, i: int, r: RecordV)
    requires
        record_rt_ok(r),
        0 <= i,
        i + ser_record(r).len() <= s.len(),
        s.subrange(i, i + ser_record(r).len()) == ser_record(r),
    ensures
        parse_record(s, i) == Ok::<(RecordV, int), DnsParseError>(
            (pad_record(r), i + ser_record(r).len()),
        ),
{
    let n = ser_name(r.name);
    let t = u16_be(type_val(r.rtype));
    let c = u16_be(class_val(r.rclass));
    let tt = u32_be(r.ttl);
    let dl = u16_be(r.data_length);
    let z = zeros((r.data_length - r.data.len()) as nat);
    let padded = r.data + z;
    lemma_zeros_len((r.data_length - r.data.len()) as nat);
    assert(padded.len() == r.data_length);
    assert(ser_record(r) == n + t + c + tt + dl + r.data + z);
    assert(n + t + c + tt + dl + r.data + z =~= n + (t + (c + (tt + (dl + padded)))));
    lemma_split_at(s, i, n, t + (c + (tt + (dl + padded))));
    lemma_split_at(s, i + n.len(), t, c + (tt + (dl + padded)));
    lemma_split_at(s, i + n.len() + 2, c, tt + (dl + padded));
    lemma_split_at(s, i + n.len() + 4, tt, dl + padded);
    lemma_split_at(s, i + n.len() + 8, dl, padded);
    let ls = r.name->Labels_0;
    assert(n == cat_labels(ls) + seq![0u8]);
    assert(n.len() == cat_labels(ls).len() + 1);
    lemma_parse_labels_at(s, i, ls);
    lemma_parse_rtype_at(s, i + n.len(), r.rtype);
    lemma_parse_rclass_at(s, i + n.len() + 2, r.rclass);
    lemma_parse_u32_at(s, i + n.len() + 4, r.ttl);
    lemma_parse_u16_at(s, i + n.len() + 8, r.data_length);
    let p = i + n.len() + 10;
    assert(s.subrange(p, p + r.data_length) == padded);
    assert(parse_record(s, i) == Ok::<(RecordV, int), DnsParseError>(
        (
            RecordV {
                name: NameV::Labels(ls),
                rtype: r.rtype,
                rclass: r.rclass,
                ttl: r.ttl,
                data_length: r.data_length,
                data: padded,
            },
            p + r.data_length,
        ),
    ));
    assert(RecordV {
        name: NameV::Labels(ls),
        rtype: r.rtype,
        rclass: r.rclass,
        ttl: r.ttl,
        data_length: r.data_length,
        data: padded,
    } == pad_record(r));
    assert(p + r.data_length == i + ser_record(r).len());
}

proof fn lemma_parse_questions_n_at(s: Seq<u8>, i: int, qs: Seq<QuestionV>)
    requires
        forall|k: int| 0 <= k < qs.len() ==> name_rt_ok((#[trigger] qs[k]).name),
        0 <= i,
        i + ser_questions(qs).len() <= s.len(),
        s.subrange(i, i + ser_questions(qs).len()) == ser_questions(qs),
    ensures
        parse_questions_n(s, i, qs.len() as int) == Ok::<(Seq<QuestionV>, int), DnsParseError>(
            (qs, i + ser_questions(qs).len()),
        ),
    decreases qs.len(),
{
    if qs.len() == 0 {
        assert(parse_questions_n(s, i, 0) == Ok::<(Seq<QuestionV>, int), DnsParseError>(
            (Seq::empty(), i),
        ));
        assert(qs =~= Seq::<QuestionV>::empty());
        assert(ser_questions(qs).len() == 0);
    } else {
        let q0 = qs[0];
        let rest = qs.drop_first();
        assert(ser_questions(qs) == ser_question(q0) + ser_questions(rest));
        lemma_split_at(s, i, ser_question(q0), ser_questions(rest));
        lemma_parse_question_at(s, i, q0);
        let i2 = i + ser_question(q0).len();
        assert forall|k: int| 0 <= k < rest.len() implies name_rt_ok(
            (#[trigger] rest[k]).name,
        ) by {
            assert(rest[k] == qs[k + 1]);
        }
        lemma_parse_questions_n_at(s, i2, rest);
        assert(parse_questions_n(s, i, qs.len() as int) == Ok::<
            (Seq<QuestionV>, int),
            DnsParseError,
        >((seq![q0] + rest, i2 + ser_questions(rest).len())));
        assert(seq![q0] + rest =~= qs);
        assert(i2 + ser_questions(rest).len() == i + ser_questions(qs).len());
    }
}

proof fn lemma_parse_records_n_at(s: Seq<u8>, i: int, rs: Seq<RecordV>)
    requires
        forall|k: int| 0 <= k < rs.len() ==> record_rt_ok(#[trigger] rs[k]),
        0 <= i,
        i + ser_records(rs).len() <= s.len(),
        s.subrange(i, i + ser_records(rs).len()) == ser_records(rs),
    ensures
        parse_records_n(s, i, rs.len() as int) == Ok::<(Seq<RecordV>, int), DnsParseError>(
            (pad_records(rs), i + ser_records(rs).len()),
        ),
    decreases rs.len(),
{
    if rs.len() == 0 {
        assert(parse_records_n(s, i, 0) == Ok::<(Seq<RecordV>, int), DnsParseError>(
            (Seq::empty(), i),
        ));
        assert(pad_records(rs) =~= Seq::<RecordV>::empty());
        assert(ser_records(rs).len() == 0);
    } else {
        let r0 = rs[0];
        let rest = rs.drop_first();
        assert(ser_records(rs) == ser_record(r0) + ser_records(rest));
        lemma_split_at(s, i, ser_record(r0), ser_records(rest));
        lemma_parse_record_at(s, i, r0);
        let i2 = i + ser_record(r0).len();
        assert forall|k: int| 0 <= k < rest.len() implies record_rt_ok(#[trigger] rest[k]) by {
            assert(rest[k] == rs[k + 1]);
        }
        lemma_parse_records_n_at(s, i2, rest);
        assert(parse_records_n(s, i, rs.len() as int) == Ok::<
            (Seq<RecordV>, int),
            DnsParseError,
        >((seq![pad_record(r0)] + pad_records(rest), i2 + ser_records(rest).len())));
        assert(seq![pad_record(r0)] + pad_records(rest) =~= pad_records(rs));
        assert(i2 + ser_records(rest).len() == i + ser_records(rs).len());
    }
}

/// Codec round trip: parsing the wire image of any well-formed message gives
/// the message back, except that the header is the one serialisation
/// synthesised and each record's RDATA is zero-padded up to its declared
/// length.
#[verifier::rlimit(60)]
pub proof fn lemma_packet_round_trip(p: PacketV, id: u16)
    requires
        packet_rt_ok(p),
    ensures
        parse_packet(ser_packet(with_header(p, synth_header(p, id)))) == Ok::<
            PacketV,
            DnsParseError,
        >(normalize(p, id)),
{
    let h = synth_header(p, id);
    let p2 = with_header(p, h);
    let s = ser_packet(p2);
    let hd = ser_header(h);
    let qb = ser_questions(p.questions);
    let ab = ser_records(p.answers);
    let ub = ser_records(p.authorities);
    let db = ser_records(p.additional);
    assert(s == hd + qb + ab + ub + db);
    assert(hd.len() == 12);
    assert(s.subrange(0, s.len() as int) =~= s);
    assert(s =~= hd + (qb + (ab + (ub + db))));
    lemma_split_at(s, 0, hd, qb + (ab + (ub + db)));
    lemma_split_at(s, 12, qb, ab + (ub + db));
    lemma_split_at(s, 12 + qb.len() as int, ab, ub + db);
    lemma_split_at(s, 12 + qb.len() as int + ab.len() as int, ub, db);
    assert(s.subrange(
        12 + qb.len() as int + ab.len() as int + ub.len() as int,
        12 + qb.len() as int + ab.len() as int + ub.len() as int + db.len() as int,
    ) == db);
    lemma_parse_header_at(s, 0, h);
    assert(h.questions_count as int == p.questions.len());
    assert(h.answers_count as int == p.answers.len());
    assert(h.authorities_count as int == p.authorities.len());
    assert(h.additional_count as int == p.additional.len());
    lemma_parse_questions_n_at(s, 12int, p.questions);
    lemma_parse_records_n_at(s, 12 + qb.len() as int, p.answers);
    lemma_parse_records_n_at(s, 12 + qb.len() as int + ab.len() as int, p.authorities);
    lemma_parse_records_n_at(s, 12 + qb.len() as int + ab.len() as int + ub.len() as int, p.additional);
    if p.is_response {
        assert(h.flags == 0x8000u16);
        assert(0x8000u16 & 0x8000u16 == 0x8000u16) by (bit_vector);
    } else {
        assert(h.flags == 0u16);
        assert(0u16 & 0x8000u16 != 0x8000u16) by (bit_vector);
    }
    assert(parse_packet(s) == Ok::<PacketV, DnsParseError>(normalize(p, id)));
}

proof fn lemma_additionals_concat(d: Seq<u8>)
    ensures
        rdata_concat(resp_additionals(d)) == d,
    decreases d.len(),
{
    if d.len() > 0 {
        let e = extra_record(take_up_to(d, 16));
        let tail = resp_additionals(skip_up_to(d, 16));
        assert((seq![e] + tail)[0] == e);
        assert((seq![e] + tail).drop_first() =~= tail);
        assert(rdata_concat(seq![e] + tail) == e.data + rdata_concat(tail));
        lemma_additionals_concat(skip_up_to(d, 16));
        assert(take_up_to(d, 16) + skip_up_to(d, 16) =~= d);
    } else {
        assert(rdata_concat(resp_additionals(d)) =~= Seq::<u8>::empty());
        assert(d =~= Seq::<u8>::empty());
    }
}

/// Steganographic round trip, response orientation: concatenating the RDATA
/// of the answers that embedding produced for the mirrored questions, then
/// of the additional records, gives the embedded payload back exactly — for
/// every question sequence and every payload.
pub proof fn lemma_resp_round_trip(qs: Seq<QuestionV>, d: Seq<u8>)
    ensures
        rdata_concat(resp_answers(qs, d)) + rdata_concat(
            resp_additionals(resp_leftover(qs, d)),
        ) == d,
    decreases qs.len(),
{
    if qs.len() == 0 {
        assert(resp_answers(qs, d) =~= Seq::<RecordV>::empty());
        assert(rdata_concat(Seq::<RecordV>::empty()) =~= Seq::<u8>::empty());
        lemma_additionals_concat(d);
        assert(Seq::<u8>::empty() + d =~= d);
    } else {
        let k = chunk_size(qs[0].qtype);
        let a0 = answer_record(qs[0], d);
        let rest = qs.drop_first();
        let d2 = skip_up_to(d, k);
        assert((seq![a0] + resp_answers(rest, d2))[0] == a0);
        assert((seq![a0] + resp_answers(rest, d2)).drop_first() =~= resp_answers(rest, d2));
        assert(rdata_concat(resp_answers(qs, d)) == a0.data + rdata_concat(
            resp_answers(rest, d2),
        ));
        lemma_resp_round_trip(rest, d2);
        assert((a0.data + rdata_concat(resp_answers(rest, d2))) + rdata_concat(
            resp_additionals(resp_leftover(rest, d2)),
        ) =~= a0.data + (rdata_concat(resp_answers(rest, d2)) + rdata_concat(
            resp_additionals(resp_leftover(rest, d2)),
        )));
        assert(take_up_to(d, k) + skip_up_to(d, k) =~= d);
    }
}

proof fn lemma_zeros_index(n: nat, i: int)
    requires
        0 <= i < n,
    ensures
        zeros(n)[i] == 0,
    decreases n,
{
    lemma_zeros_len(n);
    lemma_zeros_len((n - 1) as nat);
    if i < n - 1 {
        lemma_zeros_index((n - 1) as nat, i);
    }
}

/// The concatenated RDATA of the padded additional records is the leftover
/// payload followed by zero octets only.
proof fn lemma_additionals_padded(d: Seq<u8>)
    ensures
        ({
            let c = rdata_concat(pad_records(resp_additionals(d)));
            &&& c.len() >= d.len()
            &&& c.subrange(0, d.len() as int) == d
            &&& forall|i: int| d.len() <= i < c.len() ==> c[i] == 0
        }),
    decreases d.len(),
{
    if d.len() == 0 {
        assert(resp_additionals(d) =~= Seq::<RecordV>::empty());
        assert(pad_records(Seq::<RecordV>::empty()) =~= Seq::<RecordV>::empty());
        assert(rdata_concat(Seq::<RecordV>::empty()) =~= Seq::<u8>::empty());
        assert(Seq::<u8>::empty().subrange(0, 0) =~= Seq::<u8>::empty());
    } else {
        let e = extra_record(take_up_to(d, 16));
        let d2 = skip_up_to(d, 16);
        let rest = resp_additionals(d2);
        assert(resp_additionals(d) == seq![e] + rest);
        assert(pad_records(seq![e] + rest) =~= seq![pad_record(e)] + pad_records(rest));
        assert((seq![pad_record(e)] + pad_records(rest))[0] == pad_record(e));
        assert((seq![pad_record(e)] + pad_records(rest)).drop_first() =~= pad_records(rest));
        let c = rdata_concat(pad_records(resp_additionals(d)));
        let cr = rdata_concat(pad_records(rest));
        assert(c == pad_record(e).data + cr);
        lemma_additionals_padded(d2);
        let tk = take_up_to(d, 16);
        let z = zeros((16 - tk.len()) as nat);
        lemma_zeros_len((16 - tk.len()) as nat);
        assert(pad_record(e).data == tk + z);
        assert(c.len() >= d.len());
        assert forall|i: int| 0 <= i < d.len() implies c.subrange(0, d.len() as int)[i]
            == d[i] by {
            if i < tk.len() {
                assert(c[i] == tk[i]);
                assert(tk[i] == d[i]);
            } else {
                assert(c[i] == cr[i - 16]);
                assert(cr.subrange(0, d2.len() as int)[i - 16] == cr[i - 16]);
                assert(d2[i - 16] == d[i]);
            }
        }
        assert(c.subrange(0, d.len() as int) =~= d);
        assert forall|i: int| d.len() <= i < c.len() implies c[i] == 0 by {
            if i < tk.len() + z.len() {
                assert(c[i] == z[i - tk.len()]);
                lemma_zeros_index((16 - tk.len()) as nat, i - tk.len());
            } else {
                assert(c[i] == cr[i - tk.len() - z.len()]);
                assert(tk.len() + z.len() == 16);
                assert(i - 16 >= d2.len());
            }
        }
    }
}

/// The concatenated RDATA of the padded answers and padded additionals is
/// the whole payload followed by zero octets only.
proof fn lemma_resp_padded(qs: Seq<QuestionV>, d: Seq<u8>)
    ensures
        ({
            let c = rdata_concat(pad_records(resp_answers(qs, d))) + rdata_concat(
                pad_records(resp_additionals(resp_leftover(qs, d))),
            );
            &&& c.len() >= d.len()
            &&& c.subrange(0, d.len() as int) == d
            &&& forall|i: int| d.len() <= i < c.len() ==> c[i] == 0
        }),
    decreases qs.len(),
{
    if qs.len() == 0 {
        assert(resp_answers(qs, d) =~= Seq::<RecordV>::empty());
        assert(pad_records(Seq::<RecordV>::empty()) =~= Seq::<RecordV>::empty());
        assert(rdata_concat(Seq::<RecordV>::empty()) =~= Seq::<u8>::empty());
        lemma_additionals_padded(d);
        let ca = rdata_concat(pad_records(resp_additionals(d)));
        assert(Seq::<u8>::empty() + ca =~= ca);
    } else {
        let k = chunk_size(qs[0].qtype);
        let a0 = answer_record(qs[0], d);
        let rest = qs.drop_first();
        let d2 = skip_up_to(d, k);
        assert(resp_answers(qs, d) == seq![a0] + resp_answers(rest, d2));
        assert(pad_records(seq![a0] + resp_answers(rest, d2)) =~= seq![pad_record(a0)]
            + pad_records(resp_answers(rest, d2)));
        assert((seq![pad_record(a0)] + pad_records(resp_answers(rest, d2)))[0] == pad_record(a0));
        assert((seq![pad_record(a0)] + pad_records(resp_answers(rest, d2))).drop_first()
            =~= pad_records(resp_answers(rest, d2)));
        assert(rdata_concat(pad_records(resp_answers(qs, d))) == pad_record(a0).data
            + rdata_concat(pad_records(resp_answers(rest, d2))));
        assert(resp_leftover(qs, d) == resp_leftover(rest, d2));
        lemma_resp_padded(rest, d2);
        let cr = rdata_concat(pad_records(resp_answers(rest, d2))) + rdata_concat(
            pad_records(resp_additionals(resp_leftover(rest, d2))),
        );
        let c = rdata_concat(pad_records(resp_answers(qs, d))) + rdata_concat(
            pad_records(resp_additionals(resp_leftover(qs, d))),
        );
        let tk = take_up_to(d, k);
        let z = zeros((k - tk.len()) as nat);
        lemma_zeros_len((k - tk.len()) as nat);
        assert(pad_record(a0).data == tk + z);
        assert(a0.data_length == k);
        assert(c =~= (tk + z) + cr);
        assert(tk.len() + z.len() == k);
        assert(c.len() >= d.len());
        assert forall|i: int| 0 <= i < d.len() implies c.subrange(0, d.len() as int)[i]
            == d[i] by {
            if i < tk.len() {
                assert(c[i] == tk[i]);
                assert(tk[i] == d[i]);
            } else {
                assert(c[i] == cr[i - k]);
                assert(cr.subrange(0, d2.len() as int)[i - k] == cr[i - k]);
                assert(d2[i - k] == d[i]);
            }
        }
        assert(c.subrange(0, d.len() as int) =~= d);
        assert forall|i: int| d.len() <= i < c.len() implies c[i] == 0 by {
            if i < tk.len() + z.len() {
                assert(c[i] == z[i - tk.len()]);
                lemma_zeros_index((k - tk.len()) as nat, i - tk.len());
            } else {
                assert(c[i] == cr[i - k]);
                assert(i - k >= d2.len());
            }
        }
    }
}

/// Steganographic round trip, response orientation, over the wire: after a
/// serialise/parse round trip has zero-padded each record's RDATA to its
/// declared length, the extracted bytes are the embedded payload followed by
/// zero octets only, so trimming trailing zeros recovers the payload up to
/// its own trailing zeros.
pub proof fn lemma_resp_wire_round_trip(qs: Seq<QuestionV>, d: Seq<u8>)
    ensures
        trim_zeros(
            rdata_concat(pad_records(resp_answers(qs, d))) + rdata_concat(
                pad_records(resp_additionals(resp_leftover(qs, d))),
            ),
        ) == trim_zeros(d),
{
    lemma_resp_padded(qs, d);
    let c = rdata_concat(pad_records(resp_answers(qs, d))) + rdata_concat(
        pad_records(resp_additionals(resp_leftover(qs, d))),
    );
    let z = c.subrange(d.len() as int, c.len() as int);
    assert(c =~= d + z);
    assert forall|i: int| 0 <= i < z.len() implies z[i] == 0 by {
        assert(c[d.len() + i] == 0);
    }
    lemma_trim_zeros_suffix(d, z);
}

/// Full-stack round trip, response leg: transporting a response whose
/// answers and additionals embed the payload `d` over the wire, then
/// concatenating the parsed RDATA and trimming trailing zeros, recovers `d`
/// up to its own trailing zeros.
pub proof fn lemma_resp_transport(p: PacketV, d: Seq<u8>, id: u16)
    requires
        packet_rt_ok(p),
        p.answers == resp_answers(p.questions, d),
        p.additional == resp_additionals(resp_leftover(p.questions, d)),
    ensures
        parse_packet(ser_packet(with_header(p, synth_header(p, id)))) matches Ok(pv)
            && trim_zeros(rdata_concat(pv.answers) + rdata_concat(pv.additional)) == trim_zeros(d),
{
    lemma_packet_round_trip(p, id);
    lemma_resp_wire_round_trip(p.questions, d);
}

/// The wire image is the 12-octet header followed by the four sections in
/// order; with the bit-length clause of `serialize` this gives the
/// serialised length in bits as `12*8` plus eight times the section octets.
pub proof fn lemma_wire_layout(p: PacketV)
    ensures
        ser_packet(p) == ser_header(p.header) + ser_questions(p.questions) + ser_records(
            p.answers,
        ) + ser_records(p.authorities) + ser_records(p.additional),
        ser_header(p.header).len() == 12,
        ser_packet(p).len() == 12 + ser_questions(p.questions).len() + ser_records(
            p.answers,
        ).len() + ser_records(p.authorities).len() + ser_records(p.additional).len(),
{
    assert(ser_header(p.header).len() == 12);
}

/// Embedding a payload of `n` octets produces exactly `ceil(n / 5)` carrier
/// questions.
pub proof fn lemma_req_questions_len(d: Seq<u8>)
    ensures
        req_questions(d).len() == (d.len() + 4) / 5,
    decreases d.len(),
{
    if d.len() >= 5 {
        lemma_req_questions_len(d.skip(5));
    }
}

/// Full-stack round trip, request leg: the wire transport of a well-formed
/// request preserves its question section exactly, so whatever payload the
/// carrier questions hold is extracted unchanged on the far side.
pub proof fn lemma_request_transport(p: PacketV, id: u16)
    requires
        packet_rt_ok(p),
    ensures
        parse_packet(ser_packet(with_header(p, synth_header(p, id)))) matches Ok(pv)
            && req_extract(pv.questions) == req_extract(p.questions),
{
    lemma_packet_round_trip(p, id);
}

proof fn lemma_parse_questions_n_len(s: Seq<u8>, i: int, n: int)
    requires
        n >= 0,
    ensures
        parse_questions_n(s, i, n) matches Ok(x) ==> x.0.len() == n,
    decreases n,
{
    if n > 0 {
        if parse_question(s, i) is Ok {
            let j = parse_question(s, i)->Ok_0.1;
            lemma_parse_questions_n_len(s, j, n - 1);
        }
    }
}

proof fn lemma_parse_records_n_len(s: Seq<u8>, i: int, n: int)
    requires
        n >= 0,
    ensures
        parse_records_n(s, i, n) matches Ok(x) ==> x.0.len() == n,
    decreases n,
{
    if n > 0 {
        if parse_record(s, i) is Ok {
            let j = parse_record(s, i)->Ok_0.1;
            lemma_parse_records_n_len(s, j, n - 1);
        }
    }
}

/// Header consistency: whenever a buffer parses as a message, the four count
/// fields of the parsed header equal the lengths of the four parsed sections.
pub proof fn lemma_header_consistency(s: Seq<u8>)
    ensures
        parse_packet(s) matches Ok(pv) ==> {
            &&& pv.questions.len() == pv.header.questions_count
            &&& pv.answers.len() == pv.header.answers_count
            &&& pv.authorities.len() == pv.header.authorities_count
            &&& pv.additional.len() == pv.header.additional_count
        },
{
    if parse_header(s, 0) is Ok {
        let (h, i1) = parse_header(s, 0)->Ok_0;
        lemma_parse_questions_n_len(s, i1, h.questions_count as int);
        if parse_questions_n(s, i1, h.questions_count as int) is Ok {
            let i2 = parse_questions_n(s, i1, h.questions_count as int)->Ok_0.1;
            lemma_parse_records_n_len(s, i2, h.answers_count as int);
            if parse_records_n(s, i2, h.answers_count as int) is Ok {
                let i3 = parse_records_n(s, i2, h.answers_count as int)->Ok_0.1;
                lemma_parse_records_n_len(s, i3, h.authorities_count as int);
                if parse_records_n(s, i3, h.authorities_count as int) is Ok {
                    let i4 = parse_records_n(s, i3, h.authorities_count as int)->Ok_0.1;
                    lemma_parse_records_n_len(s, i4, h.additional_count as int);
                }
            }
        }
    }
}

} // verus!
