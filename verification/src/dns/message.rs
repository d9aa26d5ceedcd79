//! How DNS messages are written (RFC 1035), and that what is read of a message is
//! what was written.
use vstd::prelude::*;
use crate::dns::wire;
use crate::inbound::tun::forms;
use crate::net;
use crate::net::IpAddr;
use crate::text;

verus! {

/// A domain name: its labels, and where the rest of it stands if it is not
/// written out.
pub ghost struct Name {
    pub labels: Seq<Seq<u8>>,
    pub pointer: Option<int>,
}

/// A resource record.
pub ghost struct Record {
    pub name: Name,
    pub kind: u16,
    pub class: u16,
    pub ttl: u32,
    pub data: Seq<u8>,
}

/// A message with one question: its identifier, the two bytes of flags, and its
/// sections.
pub ghost struct Message {
    pub id: u16,
    pub flags: u8,
    pub code: u8,
    pub question: Name,
    pub qtype: u16,
    pub qclass: u16,
    pub answers: Seq<Record>,
    pub authority: Seq<Record>,
    pub additional: Seq<Record>,
}

/// Whether a name can be written.
pub open spec fn name_writable(n: Name) -> bool {
    &&& forall|i: int| 0 <= i < n.labels.len() ==> 1 <= (#[trigger] n.labels[i]).len() <= 63
    &&& n.pointer matches Some(p) ==> 0 <= p < 16384
}

/// Whether a record can be written.
pub open spec fn record_writable(r: Record) -> bool {
    name_writable(r.name) && r.data.len() < 65536
}

/// Whether records can be written.
pub open spec fn records_writable(rs: Seq<Record>) -> bool {
    rs.len() < 65536 && forall|i: int| 0 <= i < rs.len() ==> record_writable(#[trigger] rs[i])
}

/// Whether a message can be written.
pub open spec fn writable(m: Message) -> bool {
    &&& name_writable(m.question)
    &&& records_writable(m.answers)
    &&& records_writable(m.authority)
    &&& records_writable(m.additional)
}

/// A number in two bytes, the high one first.
pub open spec fn two_bytes(n: int) -> Seq<u8> {
    seq![(n / 256) as u8, (n % 256) as u8]
}

/// A number in four bytes, the highest first.
pub open spec fn four_bytes(n: u32) -> Seq<u8> {
    forms::big_endian(n as nat, 4)
}

/// Labels, each with its length before it.
pub open spec fn labels_bytes(labels: Seq<Seq<u8>>) -> Seq<u8>
    decreases labels.len(),
{
    if labels.len() == 0 {
        Seq::empty()
    } else {
        seq![labels[0].len() as u8] + labels[0] + labels_bytes(labels.skip(1))
    }
}

/// A name, which ends with a zero or with a pointer.
pub open spec fn name_bytes(n: Name) -> Seq<u8> {
    labels_bytes(n.labels) + (match n.pointer {
        None => seq![0u8],
        Some(p) => two_bytes(0xc000 + p),
    })
}

/// A record.
#[verifier::opaque]
pub open spec fn record_bytes(r: Record) -> Seq<u8> {
    name_bytes(r.name) + (two_bytes(r.kind as int) + two_bytes(r.class as int) + four_bytes(r.ttl)
        + two_bytes(r.data.len() as int) + r.data)
}

/// Records, one after the other.
pub open spec fn records_bytes(rs: Seq<Record>) -> Seq<u8>
    decreases rs.len(),
{
    if rs.len() == 0 {
        Seq::empty()
    } else {
        record_bytes(rs[0]) + records_bytes(rs.skip(1))
    }
}

/// The header of a message.
#[verifier::opaque]
pub open spec fn header_bytes(m: Message) -> Seq<u8> {
    two_bytes(m.id as int) + seq![m.flags, m.code] + two_bytes(1) + two_bytes(
        m.answers.len() as int,
    ) + two_bytes(m.authority.len() as int) + two_bytes(m.additional.len() as int)
}

/// The question of a message.
#[verifier::opaque]
pub open spec fn question_bytes(m: Message) -> Seq<u8> {
    name_bytes(m.question) + (two_bytes(m.qtype as int) + two_bytes(m.qclass as int))
}

/// A message.
pub open spec fn message_bytes(m: Message) -> Seq<u8> {
    header_bytes(m) + (question_bytes(m) + (records_bytes(m.answers) + (records_bytes(m.authority)
        + records_bytes(m.additional))))
}

/// Whether `part` stands at `pos`.
spec fn stands(msg: Seq<u8>, pos: int, part: Seq<u8>) -> bool {
    0 <= pos && pos + part.len() <= msg.len() && msg.subrange(pos, pos + part.len()) == part
}

proof fn lemma_stands(msg: Seq<u8>, pos: int, a: Seq<u8>, b: Seq<u8>)
    requires
        stands(msg, pos, a + b),
    ensures
        stands(msg, pos, a),
        stands(msg, (pos + a.len()) as int, b),
{
    let whole = msg.subrange(pos, pos + (a + b).len());
    assert(msg.subrange(pos, pos + a.len()) =~= whole.take(a.len() as int));
    assert((a + b).take(a.len() as int) =~= a);
    assert(msg.subrange(pos + a.len(), pos + a.len() + b.len()) =~= whole.skip(a.len() as int));
    assert((a + b).skip(a.len() as int) =~= b);
}

proof fn lemma_stands_at(msg: Seq<u8>, pos: int, part: Seq<u8>, i: int)
    requires
        stands(msg, pos, part),
        0 <= i < part.len(),
    ensures
        msg[pos + i] == part[i],
{
    assert(msg.subrange(pos, pos + part.len())[i] == msg[pos + i]);
}

/// A name ends where it was written to the end.
proof fn lemma_name(msg: Seq<u8>, pos: int, n: Name)
    requires
        name_writable(n),
        stands(msg, pos, name_bytes(n)),
    ensures
        wire::name_end(msg, pos) == Some((pos + name_bytes(n).len()) as int),
    decreases n.labels.len(),
{
    if n.labels.len() == 0 {
        match n.pointer {
            None => {
                assert(name_bytes(n) =~= seq![0u8]);
                lemma_stands_at(msg, pos, name_bytes(n), 0);
            },
            Some(p) => {
                assert(name_bytes(n) =~= two_bytes(0xc000 + p));
                lemma_stands_at(msg, pos, name_bytes(n), 0);
                assert((0xc000 + p) / 256 >= 192);
            },
        }
    } else {
        let l = n.labels[0];
        let rest = Name { labels: n.labels.skip(1), pointer: n.pointer };
        let first = seq![l.len() as u8] + l;
        assert(name_bytes(n) =~= first + name_bytes(rest));
        assert forall|i: int| 0 <= i < rest.labels.len() implies 1 <= (
        #[trigger] rest.labels[i]).len() <= 63 by {
            assert(rest.labels[i] == n.labels[i + 1]);
        }
        lemma_stands(msg, pos, first, name_bytes(rest));
        lemma_stands_at(msg, pos, first, 0);
        lemma_name(msg, (pos + first.len()) as int, rest);
    }
}

/// Where the parts of a record stand.
proof fn lemma_record(msg: Seq<u8>, pos: int, r: Record)
    requires
        record_writable(r),
        stands(msg, pos, record_bytes(r)),
    ensures
        ({
            let p = pos + name_bytes(r.name).len();
            &&& wire::name_end(msg, pos) == Some(p as int)
            &&& wire::word(msg, p) == r.kind
            &&& wire::double_word(msg, p + 4) == r.ttl
            &&& wire::word(msg, p + 8) == r.data.len()
            &&& stands(msg, p + 10, r.data)
            &&& p + 10 + r.data.len() == pos + record_bytes(r).len()
        }),
{
    reveal(record_bytes);
    let p = (pos + name_bytes(r.name).len()) as int;
    let a = two_bytes(r.kind as int) + two_bytes(r.class as int);
    let t = four_bytes(r.ttl);
    let l = two_bytes(r.data.len() as int);
    forms::lemma_address_v4(r.ttl);
    lemma_stands(msg, pos, name_bytes(r.name), a + t + l + r.data);
    lemma_name(msg, pos, r.name);
    lemma_stands(msg, p, a + t + l, r.data);
    lemma_stands(msg, p, a + t, l);
    lemma_stands(msg, p, a, t);
    lemma_stands_at(msg, p, a, 0);
    lemma_stands_at(msg, p, a, 1);
    lemma_stands_at(msg, p + 8, l, 0);
    lemma_stands_at(msg, p + 8, l, 1);
}

proof fn lemma_first_record(msg: Seq<u8>, pos: int, rs: Seq<Record>)
    requires
        rs.len() > 0,
        records_writable(rs),
        stands(msg, pos, records_bytes(rs)),
    ensures
        record_writable(rs[0]),
        records_writable(rs.skip(1)),
        stands(msg, pos, record_bytes(rs[0])),
        stands(msg, (pos + record_bytes(rs[0]).len()) as int, records_bytes(rs.skip(1))),
        records_bytes(rs).len() == record_bytes(rs[0]).len() + records_bytes(rs.skip(1)).len(),
{
    lemma_stands(msg, pos, record_bytes(rs[0]), records_bytes(rs.skip(1)));
    assert forall|i: int| 0 <= i < rs.skip(1).len() implies record_writable(
        #[trigger] rs.skip(1)[i],
    ) by {
        assert(rs.skip(1)[i] == rs[i + 1]);
    }
}

/// Where the parts of a message stand.
proof fn lemma_message(m: Message)
    requires
        writable(m),
    ensures
        ({
            let msg = message_bytes(m);
            let p = 12 + name_bytes(m.question).len();
            let a = records_bytes(m.answers).len();
            &&& msg.len() >= 13
            &&& header_bytes(m).len() == 12
            &&& question_bytes(m).len() == name_bytes(m.question).len() + 4
            &&& msg[3] == m.code
            &&& wire::word(msg, 4) == 1
            &&& wire::word(msg, 6) == m.answers.len()
            &&& wire::word(msg, 8) == m.authority.len()
            &&& wire::word(msg, 10) == m.additional.len()
            &&& wire::name_end(msg, 12) == Some(p as int)
            &&& wire::word(msg, p as int) == m.qtype
            &&& stands(msg, (p + 4) as int, records_bytes(m.answers))
            &&& stands(msg, (p + 4 + a) as int, records_bytes(m.authority))
        }),
{
    reveal(header_bytes);
    reveal(question_bytes);
    let msg = message_bytes(m);
    let h = header_bytes(m);
    let q = question_bytes(m);
    let p = (12 + name_bytes(m.question).len()) as int;
    let tail = records_bytes(m.authority) + records_bytes(m.additional);
    assert(msg.subrange(0, msg.len() as int) =~= msg);
    assert(stands(msg, 0, msg));
    lemma_stands(msg, 0, h, q + (records_bytes(m.answers) + tail));
    lemma_stands(msg, 12, q, records_bytes(m.answers) + tail);
    lemma_stands(msg, p + 4, records_bytes(m.answers), tail);
    lemma_stands(
        msg,
        (p + 4 + records_bytes(m.answers).len()) as int,
        records_bytes(m.authority),
        records_bytes(m.additional),
    );
    let t = two_bytes(m.qtype as int) + two_bytes(m.qclass as int);
    lemma_stands(msg, 12, name_bytes(m.question), t);
    lemma_name(msg, 12, m.question);
    lemma_stands_at(msg, p, t, 0);
    lemma_stands_at(msg, p, t, 1);
    assert forall|i: int| 0 <= i < 12 implies msg[i] == h[i] by {
        lemma_stands_at(msg, 0, h, i);
    }
}

/// The type that a message asks for is read as it was written.
pub proof fn law_question_type_is_read(m: Message)
    requires
        writable(m),
    ensures
        wire::question_type(message_bytes(m)) == Some(m.qtype),
{
    lemma_message(m);
}

/// The number that bytes stand for, the highest first.
pub open spec fn value(b: Seq<u8>) -> int
    decreases b.len(),
{
    if b.len() == 0 {
        0
    } else {
        value(b.drop_last()) * 256 + b.last()
    }
}

/// The address that a record holds: four bytes in one of type 1, sixteen in one
/// of type 28.
pub open spec fn address_of(r: Record) -> Option<IpAddr> {
    if r.kind == 1 && r.data.len() == 4 {
        Some(IpAddr::V4(value(r.data) as u32))
    } else if r.kind == 28 && r.data.len() == 16 {
        Some(IpAddr::V6(value(r.data) as u128))
    } else {
        None
    }
}

/// The addresses in the records of a type.
pub open spec fn addresses_of(rs: Seq<Record>, qtype: u16) -> Seq<IpAddr>
    decreases rs.len(),
{
    if rs.len() == 0 {
        Seq::empty()
    } else {
        let rest = addresses_of(rs.drop_last(), qtype);
        if rs.last().kind == qtype && address_of(rs.last()) is Some {
            rest.push(address_of(rs.last())->0)
        } else {
            rest
        }
    }
}

proof fn lemma_value(b: Seq<u8>)
    ensures
        value(b) == net::from_octets(b),
    decreases b.len(),
{
    if b.len() > 0 {
        lemma_value(b.drop_last());
    }
}

proof fn lemma_addresses_front(rs: Seq<Record>, qtype: u16)
    requires
        rs.len() > 0,
    ensures
        addresses_of(rs, qtype) == addresses_of(seq![rs[0]], qtype) + addresses_of(
            rs.skip(1),
            qtype,
        ),
    decreases rs.len(),
{
    let e = Seq::<Record>::empty();
    if rs.len() == 1 {
        assert(rs =~= seq![rs[0]]);
        assert(rs.skip(1) =~= e);
    } else {
        lemma_addresses_front(rs.drop_last(), qtype);
        assert(rs.drop_last().skip(1) =~= rs.skip(1).drop_last());
        assert(rs.skip(1).last() == rs.last());
        assert(rs.drop_last()[0] == rs[0]);
        assert(addresses_of(rs, qtype) =~= addresses_of(seq![rs[0]], qtype) + addresses_of(
            rs.skip(1),
            qtype,
        ));
    }
}

proof fn lemma_addresses(msg: Seq<u8>, pos: int, rs: Seq<Record>, qtype: u16)
    requires
        records_writable(rs),
        stands(msg, pos, records_bytes(rs)),
    ensures
        wire::addresses_from(msg, pos, rs.len(), qtype) == addresses_of(rs, qtype),
    decreases rs.len(),
{
    if rs.len() > 0 {
        let r = rs[0];
        lemma_first_record(msg, pos, rs);
        lemma_record(msg, pos, r);
        lemma_addresses(msg, (pos + record_bytes(r).len()) as int, rs.skip(1), qtype);
        lemma_addresses_front(rs, qtype);
        lemma_value(r.data);
        assert(seq![r].drop_last() =~= Seq::<Record>::empty());
        assert(addresses_of(Seq::<Record>::empty(), qtype) =~= Seq::empty());
        assert(addresses_of(seq![r], qtype) =~= (if r.kind == qtype && address_of(r) is Some {
            seq![address_of(r)->0]
        } else {
            Seq::empty()
        }));
        assert(wire::addresses_from(msg, pos, rs.len(), qtype) =~= addresses_of(rs, qtype));
    } else {
        assert(addresses_of(rs, qtype) =~= Seq::empty());
    }
}

/// Of a response, the addresses of its answers are read, in their order: those in
/// answers of the given type, whatever the names, the classes and the other
/// answers are, and however the names are written.
pub proof fn law_answers_are_read(m: Message, qtype: u16)
    requires
        writable(m),
    ensures
        wire::answered(message_bytes(m), qtype) == addresses_of(m.answers, qtype),
        wire::first_answered(message_bytes(m), qtype) == (if addresses_of(m.answers, qtype).len()
            > 0 {
            Some(addresses_of(m.answers, qtype)[0])
        } else {
            None
        }),
{
    lemma_message(m);
    lemma_addresses(
        message_bytes(m),
        (16 + name_bytes(m.question).len()) as int,
        m.answers,
        qtype,
    );
}

/// Whether `t` is the least time to live of records.
pub open spec fn is_least_ttl(rs: Seq<Record>, t: u32) -> bool {
    &&& exists|i: int| 0 <= i < rs.len() && (#[trigger] rs[i]).ttl == t
    &&& forall|i: int| 0 <= i < rs.len() ==> t <= (#[trigger] rs[i]).ttl
}

proof fn lemma_least(msg: Seq<u8>, pos: int, rs: Seq<Record>, least: u32)
    requires
        records_writable(rs),
        stands(msg, pos, records_bytes(rs)),
    ensures
        wire::least_ttl_from(msg, pos, rs.len(), least) matches Some(v) && v <= least && (v == least
            || exists|i: int| 0 <= i < rs.len() && (#[trigger] rs[i]).ttl == v) && forall|i: int|
            0 <= i < rs.len() ==> v <= (#[trigger] rs[i]).ttl,
    decreases rs.len(),
{
    if rs.len() > 0 {
        let r = rs[0];
        lemma_first_record(msg, pos, rs);
        lemma_record(msg, pos, r);
        let next = if r.ttl < least {
            r.ttl
        } else {
            least
        };
        lemma_least(msg, (pos + record_bytes(r).len()) as int, rs.skip(1), next);
        let v = wire::least_ttl_from(msg, pos, rs.len(), least)->0;
        if exists|i: int| 0 <= i < rs.skip(1).len() && (#[trigger] rs.skip(1)[i]).ttl == v {
            let i = choose|i: int| 0 <= i < rs.skip(1).len() && (#[trigger] rs.skip(1)[i]).ttl == v;
            assert(rs[i + 1].ttl == v);
        }
        assert forall|i: int| 0 <= i < rs.len() implies v <= (#[trigger] rs[i]).ttl by {
            if i > 0 {
                assert(rs.skip(1)[i - 1] == rs[i]);
            }
        }
    }
}

/// The least time to live of the answers of a response is found, unless it is
/// the largest number that there is.
pub proof fn law_least_ttl_is_found(m: Message)
    requires
        writable(m),
    ensures
        match wire::least_ttl(message_bytes(m)) {
            Some(t) => is_least_ttl(m.answers, t) && t != 0xffff_ffff,
            None => forall|i: int|
                0 <= i < m.answers.len() ==> (#[trigger] m.answers[i]).ttl == 0xffff_ffff,
        },
{
    lemma_message(m);
    lemma_least(
        message_bytes(m),
        (16 + name_bytes(m.question).len()) as int,
        m.answers,
        u32::MAX,
    );
}

/// The data of a SOA record.
pub open spec fn soa_data(
    server: Name,
    mailbox: Name,
    serial: u32,
    refresh: u32,
    retry: u32,
    expire: u32,
    minimum: u32,
) -> Seq<u8> {
    name_bytes(server) + (name_bytes(mailbox) + (four_bytes(serial) + four_bytes(refresh)
        + four_bytes(retry) + four_bytes(expire) + four_bytes(minimum)))
}

proof fn lemma_records_end(msg: Seq<u8>, pos: int, rs: Seq<Record>)
    requires
        records_writable(rs),
        stands(msg, pos, records_bytes(rs)),
    ensures
        wire::records_end(msg, pos, rs.len()) == Some((pos + records_bytes(rs).len()) as int),
    decreases rs.len(),
{
    if rs.len() > 0 {
        lemma_first_record(msg, pos, rs);
        lemma_record(msg, pos, rs[0]);
        lemma_records_end(msg, (pos + record_bytes(rs[0]).len()) as int, rs.skip(1));
    }
}

proof fn lemma_no_soa(msg: Seq<u8>, pos: int, rs: Seq<Record>)
    requires
        records_writable(rs),
        stands(msg, pos, records_bytes(rs)),
        forall|i: int| 0 <= i < rs.len() ==> (#[trigger] rs[i]).kind != 6,
    ensures
        wire::soa_ttl_from(msg, pos, rs.len()) is None,
    decreases rs.len(),
{
    if rs.len() > 0 {
        lemma_first_record(msg, pos, rs);
        lemma_record(msg, pos, rs[0]);
        assert forall|i: int| 0 <= i < rs.skip(1).len() implies (#[trigger] rs.skip(1)[i]).kind
            != 6 by {
            assert(rs.skip(1)[i] == rs[i + 1]);
        }
        lemma_no_soa(msg, (pos + record_bytes(rs[0]).len()) as int, rs.skip(1));
    }
}

proof fn lemma_soa(
    msg: Seq<u8>,
    pos: int,
    rs: Seq<Record>,
    k: int,
    server: Name,
    mailbox: Name,
    serial: u32,
    refresh: u32,
    retry: u32,
    expire: u32,
    minimum: u32,
)
    requires
        records_writable(rs),
        stands(msg, pos, records_bytes(rs)),
        0 <= k < rs.len(),
        forall|i: int| 0 <= i < k ==> (#[trigger] rs[i]).kind != 6,
        rs[k].kind == 6,
        name_writable(server),
        name_writable(mailbox),
        rs[k].data == soa_data(server, mailbox, serial, refresh, retry, expire, minimum),
    ensures
        wire::soa_ttl_from(msg, pos, rs.len()) == Some(
            if rs[k].ttl < minimum {
                rs[k].ttl
            } else {
                minimum
            },
        ),
    decreases k,
{
    lemma_first_record(msg, pos, rs);
    lemma_record(msg, pos, rs[0]);
    if k > 0 {
        assert(rs[0].kind != 6);
        assert forall|i: int| 0 <= i < k - 1 implies (#[trigger] rs.skip(1)[i]).kind != 6 by {
            assert(rs.skip(1)[i] == rs[i + 1]);
        }
        assert(rs.skip(1)[k - 1] == rs[k]);
        lemma_soa(
            msg,
            (pos + record_bytes(rs[0]).len()) as int,
            rs.skip(1),
            k - 1,
            server,
            mailbox,
            serial,
            refresh,
            retry,
            expire,
            minimum,
        );
    } else {
        let at = (pos + name_bytes(rs[0].name).len() + 10) as int;
        let front = four_bytes(serial) + four_bytes(refresh) + four_bytes(retry) + four_bytes(
            expire,
        );
        forms::lemma_address_v4(serial);
        forms::lemma_address_v4(refresh);
        forms::lemma_address_v4(retry);
        forms::lemma_address_v4(expire);
        forms::lemma_address_v4(minimum);
        lemma_stands(msg, at, name_bytes(server), name_bytes(mailbox) + (front + four_bytes(minimum)));
        lemma_name(msg, at, server);
        let q = (at + name_bytes(server).len()) as int;
        lemma_stands(msg, q, name_bytes(mailbox), front + four_bytes(minimum));
        lemma_name(msg, q, mailbox);
        let f = (q + name_bytes(mailbox).len()) as int;
        lemma_stands(msg, f, front, four_bytes(minimum));
    }
}

/// How long a negative response may be kept is what the first SOA record of its
/// authority section says: the lesser of its time to live and its last field.
/// Without such a record nothing is known.
pub proof fn law_soa_is_read(
    m: Message,
    k: int,
    server: Name,
    mailbox: Name,
    serial: u32,
    refresh: u32,
    retry: u32,
    expire: u32,
    minimum: u32,
)
    requires
        writable(m),
        name_writable(server),
        name_writable(mailbox),
        0 <= k <= m.authority.len(),
        forall|i: int| 0 <= i < k ==> (#[trigger] m.authority[i]).kind != 6,
        k < m.authority.len() ==> m.authority[k].kind == 6 && m.authority[k].data == soa_data(
            server,
            mailbox,
            serial,
            refresh,
            retry,
            expire,
            minimum,
        ),
    ensures
        k == m.authority.len() ==> wire::soa_ttl(message_bytes(m)) is None,
        k < m.authority.len() ==> (wire::soa_ttl(message_bytes(m)) matches Some(t) && (t
            == m.authority[k].ttl || t == minimum) && t <= m.authority[k].ttl && t <= minimum),
{
    let msg = message_bytes(m);
    let p = (16 + name_bytes(m.question).len()) as int;
    let a = (p + records_bytes(m.answers).len()) as int;
    lemma_message(m);
    lemma_records_end(msg, p, m.answers);
    if k == m.authority.len() {
        lemma_no_soa(msg, a, m.authority);
    } else {
        lemma_soa(
            msg,
            a,
            m.authority,
            k,
            server,
            mailbox,
            serial,
            refresh,
            retry,
            expire,
            minimum,
        );
    }
}

/// Whether and how long a response is kept. One with answers and without error
/// is kept as long as its least time to live. One without answers, whether the
/// name exists or not, is kept if its authority section has a SOA record, for
/// 300 seconds at most. Nothing with another error is kept without answers.
pub proof fn law_keeping_of_responses(m: Message)
    requires
        writable(m),
    ensures
        ({
            let msg = message_bytes(m);
            let code = m.code % 16;
            &&& code == 0 && m.answers.len() > 0 ==> {
                &&& wire::may_be_kept(msg)
                &&& wire::keeping_time(msg) == wire::least_ttl(msg)
            }
            &&& code == 0 && m.answers.len() == 0 ==> {
                &&& wire::may_be_kept(msg) <==> wire::soa_ttl(msg) is Some
                &&& wire::keeping_time(msg) matches Some(t) && t <= 300
                &&& wire::soa_ttl(msg) matches Some(s) ==> wire::keeping_time(msg) == Some(
                    if s <= 300 {
                        s
                    } else {
                        300
                    },
                )
                &&& wire::soa_ttl(msg) is None ==> wire::keeping_time(msg) == Some(300u32)
            }
            &&& code == 3 ==> (wire::may_be_kept(msg) <==> wire::soa_ttl(msg) is Some)
            &&& code == 3 && m.answers.len() == 0 ==> {
                &&& wire::soa_ttl(msg) matches Some(s) ==> wire::keeping_time(msg) == Some(
                    if s <= 300 {
                        s
                    } else {
                        300
                    },
                )
                &&& wire::soa_ttl(msg) is None ==> wire::keeping_time(msg) == Some(300u32)
            }
            &&& code != 0 && code != 3 ==> !wire::may_be_kept(msg)
            &&& wire::is_positive(msg) <==> code == 0 && m.answers.len() > 0
        }),
{
    lemma_message(m);
    lemma_keeping(message_bytes(m), m.code, m.answers.len());
}

proof fn lemma_keeping(msg: Seq<u8>, byte: u8, n: nat)
    requires
        msg.len() >= 12,
        msg[3] == byte,
        wire::word(msg, 6) == n,
    ensures
        ({
            let code = byte % 16;
            &&& code == 0 && n > 0 ==> {
                &&& wire::may_be_kept(msg)
                &&& wire::keeping_time(msg) == wire::least_ttl(msg)
            }
            &&& code == 0 && n == 0 ==> {
                &&& wire::may_be_kept(msg) <==> wire::soa_ttl(msg) is Some
                &&& wire::keeping_time(msg) matches Some(t) && t <= 300
                &&& wire::soa_ttl(msg) matches Some(s) ==> wire::keeping_time(msg) == Some(
                    if s <= 300 {
                        s
                    } else {
                        300
                    },
                )
                &&& wire::soa_ttl(msg) is None ==> wire::keeping_time(msg) == Some(300u32)
            }
            &&& code == 3 ==> (wire::may_be_kept(msg) <==> wire::soa_ttl(msg) is Some)
            &&& code == 3 && n == 0 ==> {
                &&& wire::soa_ttl(msg) matches Some(s) ==> wire::keeping_time(msg) == Some(
                    if s <= 300 {
                        s
                    } else {
                        300
                    },
                )
                &&& wire::soa_ttl(msg) is None ==> wire::keeping_time(msg) == Some(300u32)
            }
            &&& code != 0 && code != 3 ==> !wire::may_be_kept(msg)
            &&& wire::is_positive(msg) <==> code == 0 && n > 0
        }),
{
}

/// Records with another time to live, but for pseudo records of type 41.
pub open spec fn with_ttl(rs: Seq<Record>, ttl: u32) -> Seq<Record> {
    Seq::new(
        rs.len(),
        |i: int|
            if rs[i].kind == 41 {
                rs[i]
            } else {
                Record { ttl, ..rs[i] }
            },
    )
}

/// A record with another time to live, but for a pseudo record of type 41.
spec fn changed(r: Record, ttl: u32) -> Record {
    if r.kind == 41 {
        r
    } else {
        Record { ttl, ..r }
    }
}

proof fn lemma_changed(head: Seq<u8>, r: Record, tail: Seq<u8>, ttl: u32)
    ensures
        ({
            let msg = head + record_bytes(r) + tail;
            let p = head.len() + name_bytes(r.name).len();
            &&& wire::with_double_word(msg, (p + 4) as int, ttl) == head + record_bytes(
                Record { ttl, ..r },
            ) + tail
            &&& record_bytes(Record { ttl, ..r }).len() == record_bytes(r).len()
        }),
{
    reveal(record_bytes);
    let s = Record { ttl, ..r };
    let n = name_bytes(r.name);
    let a = two_bytes(r.kind as int) + two_bytes(r.class as int);
    let t = two_bytes(r.data.len() as int) + r.data;
    let front = head + n + a;
    let back = t + tail;
    forms::lemma_address_v4(ttl);
    forms::lemma_address_v4(r.ttl);
    assert(head + record_bytes(r) + tail =~= front + four_bytes(r.ttl) + back);
    assert(head + record_bytes(s) + tail =~= front + four_bytes(ttl) + back);
    assert(front.len() == head.len() + n.len() + 4);
    assert(wire::with_double_word(
        front + four_bytes(r.ttl) + back,
        front.len() as int,
        ttl,
    ) =~= front + four_bytes(ttl) + back);
}

proof fn lemma_replaced(head: Seq<u8>, rs: Seq<Record>, tail: Seq<u8>, ttl: u32)
    requires
        records_writable(rs),
    ensures
        wire::with_ttls(head + records_bytes(rs) + tail, head.len() as int, rs.len(), ttl) == head
            + records_bytes(with_ttl(rs, ttl)) + tail,
    decreases rs.len(),
{
    let msg = head + records_bytes(rs) + tail;
    let pos = head.len() as int;
    let done = with_ttl(rs, ttl);
    if rs.len() == 0 {
        assert(done =~= rs);
    } else {
        let r = rs[0];
        let rest = rs.skip(1);
        let after = records_bytes(rest) + tail;
        let s = changed(r, ttl);
        assert(done[0] == s);
        assert(done.skip(1) =~= with_ttl(rest, ttl));
        assert(msg =~= head + record_bytes(r) + after);
        assert(msg.subrange(pos, pos + records_bytes(rs).len()) =~= records_bytes(rs));
        lemma_first_record(msg, pos, rs);
        lemma_record(msg, pos, r);
        lemma_changed(head, r, after, ttl);
        lemma_replaced(head + record_bytes(s), rest, tail, ttl);
        assert(head + record_bytes(s) + after =~= head + record_bytes(s) + records_bytes(rest)
            + tail);
        assert(head + records_bytes(done) + tail =~= head + record_bytes(s) + records_bytes(
            done.skip(1),
        ) + tail);
    }
}

proof fn lemma_replaced_all(
    head: Seq<u8>,
    a: Seq<Record>,
    b: Seq<Record>,
    c: Seq<Record>,
    ttl: u32,
)
    requires
        records_writable(a),
        records_writable(b),
        records_writable(c),
    ensures
        wire::with_ttls(
            head + (records_bytes(a) + (records_bytes(b) + records_bytes(c))),
            head.len() as int,
            a.len() + b.len() + c.len(),
            ttl,
        ) == head + (records_bytes(with_ttl(a, ttl)) + (records_bytes(with_ttl(b, ttl))
            + records_bytes(with_ttl(c, ttl)))),
{
    let e = Seq::<u8>::empty();
    let ra = records_bytes(a);
    let rb = records_bytes(b);
    let rc = records_bytes(c);
    let da = records_bytes(with_ttl(a, ttl));
    let db = records_bytes(with_ttl(b, ttl));
    let dc = records_bytes(with_ttl(c, ttl));
    let msg = head + (ra + (rb + rc));
    assert(msg =~= head + ra + (rb + rc));
    lemma_replaced(head, a, rb + rc, ttl);
    lemma_same_size(a, ttl);
    lemma_same_size(b, ttl);
    let m1 = head + da + (rb + rc);
    assert(m1 =~= (head + da) + rb + rc);
    lemma_replaced(head + da, b, rc, ttl);
    let m2 = (head + da) + db + rc;
    assert(m2 =~= (head + da + db) + rc + e);
    lemma_replaced(head + da + db, c, e, ttl);
    assert((head + da + db) + dc + e =~= head + (da + (db + dc)));
    let q = head.len() as int;
    assert(msg.subrange(q, q + ra.len()) =~= ra);
    assert(m1.subrange(q + da.len(), q + da.len() + rb.len()) =~= rb);
    lemma_split(msg, q, a, b.len() + c.len(), ttl);
    lemma_split(m1, (head + da).len() as int, b, c.len(), ttl);
}

proof fn lemma_same_size(rs: Seq<Record>, ttl: u32)
    ensures
        records_bytes(with_ttl(rs, ttl)).len() == records_bytes(rs).len(),
    decreases rs.len(),
{
    if rs.len() > 0 {
        reveal(record_bytes);
        forms::lemma_big_endian(ttl as nat, 4);
        forms::lemma_big_endian(rs[0].ttl as nat, 4);
        lemma_same_size(rs.skip(1), ttl);
        assert(with_ttl(rs, ttl).skip(1) =~= with_ttl(rs.skip(1), ttl));
    }
}

/// Replacing can stop after some records and go on from there.
proof fn lemma_split(msg: Seq<u8>, pos: int, rs: Seq<Record>, n: nat, ttl: u32)
    requires
        records_writable(rs),
        stands(msg, pos, records_bytes(rs)),
    ensures
        wire::with_ttls(msg, pos, rs.len() + n, ttl) == wire::with_ttls(
            wire::with_ttls(msg, pos, rs.len(), ttl),
            (pos + records_bytes(rs).len()) as int,
            n,
            ttl,
        ),
    decreases rs.len(),
{
    if rs.len() > 0 {
        let r = rs[0];
        lemma_first_record(msg, pos, rs);
        lemma_record(msg, pos, r);
        let p = (pos + name_bytes(r.name).len()) as int;
        let m = if r.kind == 41 {
            msg
        } else {
            wire::with_double_word(msg, p + 4, ttl)
        };
        let q = (pos + record_bytes(r).len()) as int;
        let rest = records_bytes(rs.skip(1));
        assert(m.subrange(q, q + rest.len()) =~= msg.subrange(q, q + rest.len()));
        lemma_split(m, q, rs.skip(1), n, ttl);
        assert((rs.len() + n - 1) as nat == rs.skip(1).len() + n);
    }
}

/// A response whose times to live are replaced is the response that would have
/// been written with the new ones: everything else is unchanged, and so are
/// pseudo records.
pub proof fn law_times_are_replaced(m: Message, ttl: u32)
    requires
        writable(m),
    ensures
        wire::normalized(message_bytes(m), ttl) == message_bytes(
            Message {
                answers: with_ttl(m.answers, ttl),
                authority: with_ttl(m.authority, ttl),
                additional: with_ttl(m.additional, ttl),
                ..m
            },
        ),
{
    let h = header_bytes(m);
    let q = question_bytes(m);
    let n = Message {
        answers: with_ttl(m.answers, ttl),
        authority: with_ttl(m.authority, ttl),
        additional: with_ttl(m.additional, ttl),
        ..m
    };
    lemma_counts(m);
    lemma_same_header(m, n);
    lemma_joined(h, q, m.answers, m.authority, m.additional);
    lemma_joined(h, q, n.answers, n.authority, n.additional);
    lemma_replaced_all(h + q, m.answers, m.authority, m.additional, ttl);
    lemma_normalized(
        message_bytes(m),
        (h + q).len() as int,
        m.answers.len() + m.authority.len() + m.additional.len(),
        ttl,
    );
}

proof fn lemma_same_header(m: Message, n: Message)
    requires
        m.id == n.id,
        m.flags == n.flags,
        m.code == n.code,
        m.question == n.question,
        m.qtype == n.qtype,
        m.qclass == n.qclass,
        m.answers.len() == n.answers.len(),
        m.authority.len() == n.authority.len(),
        m.additional.len() == n.additional.len(),
    ensures
        header_bytes(m) == header_bytes(n),
        question_bytes(m) == question_bytes(n),
{
    reveal(header_bytes);
    reveal(question_bytes);
}

proof fn lemma_counts(m: Message)
    requires
        writable(m),
    ensures
        message_bytes(m).len() >= 12,
        wire::word(message_bytes(m), 4) == 1,
        wire::record_count(message_bytes(m)) == m.answers.len() + m.authority.len()
            + m.additional.len(),
        wire::name_end(message_bytes(m), 12) == Some(
            (header_bytes(m) + question_bytes(m)).len() - 4,
        ),
{
    lemma_message(m);
}

proof fn lemma_joined(h: Seq<u8>, q: Seq<u8>, a: Seq<Record>, b: Seq<Record>, c: Seq<Record>)
    ensures
        h + (q + (records_bytes(a) + (records_bytes(b) + records_bytes(c)))) == (h + q) + (
        records_bytes(a) + (records_bytes(b) + records_bytes(c))),
{
    let t = records_bytes(a) + (records_bytes(b) + records_bytes(c));
    assert(h + (q + t) =~= (h + q) + t);
}

proof fn lemma_normalized(msg: Seq<u8>, p: int, n: nat, ttl: u32)
    requires
        msg.len() >= 12,
        wire::word(msg, 4) == 1,
        wire::record_count(msg) == n,
        wire::name_end(msg, 12) == Some(p - 4),
    ensures
        wire::normalized(msg, ttl) == wire::with_ttls(msg, p, n, ttl),
{
    assert(wire::questions_end(msg, p, 0) == Some(p));
    assert(wire::questions_end(msg, 12, 1) == Some(p));
}

/// A query is a message that asks for recursion, in class 1, for the name with
/// the texts between dots as its labels, and that carries no records.
pub proof fn law_query_is_written(name: Seq<char>, qtype: u16)
    requires
        forall|i: int|
            0 <= i < text::parts(name, '.').len() ==> 1 <= vstd::utf8::encode_utf8(
                #[trigger] text::parts(name, '.')[i],
            ).len() <= 63,
    ensures
        wire::query_bytes(name, qtype) == message_bytes(
            Message {
                id: 1,
                flags: 1,
                code: 0,
                question: Name {
                    labels: text::parts(name, '.').map_values(
                        |l: Seq<char>| vstd::utf8::encode_utf8(l),
                    ),
                    pointer: None,
                },
                qtype,
                qclass: 1,
                answers: Seq::empty(),
                authority: Seq::empty(),
                additional: Seq::empty(),
            },
        ),
{
    let parts = text::parts(name, '.');
    let labels = parts.map_values(|l: Seq<char>| vstd::utf8::encode_utf8(l));
    lemma_query_labels(parts);
    let m = Message {
        id: 1,
        flags: 1,
        code: 0,
        question: Name { labels, pointer: None },
        qtype,
        qclass: 1,
        answers: Seq::empty(),
        authority: Seq::empty(),
        additional: Seq::empty(),
    };
    reveal(header_bytes);
    reveal(question_bytes);
    assert(header_bytes(m) =~= wire::query_header());
    assert(wire::query_bytes(name, qtype) =~= message_bytes(m));
}

proof fn lemma_query_labels(parts: Seq<Seq<char>>)
    requires
        forall|i: int|
            0 <= i < parts.len() ==> 1 <= vstd::utf8::encode_utf8(#[trigger] parts[i]).len() <= 63,
    ensures
        wire::label_bytes(parts) == labels_bytes(
            parts.map_values(|l: Seq<char>| vstd::utf8::encode_utf8(l)),
        ),
    decreases parts.len(),
{
    let labels = parts.map_values(|l: Seq<char>| vstd::utf8::encode_utf8(l));
    if parts.len() > 0 {
        let rest = parts.skip(1);
        assert forall|i: int| 0 <= i < rest.len() implies 1 <= vstd::utf8::encode_utf8(
            #[trigger] rest[i],
        ).len() <= 63 by {
            assert(rest[i] == parts[i + 1]);
        }
        lemma_query_labels(rest);
        assert(labels.skip(1) =~= rest.map_values(|l: Seq<char>| vstd::utf8::encode_utf8(l)));
        if parts[0].len() == 0 {
            assert(parts[0] =~= Seq::<char>::empty());
            reveal_with_fuel(vstd::utf8::encode_utf8, 1);
        }
        assert(wire::label_bytes(parts) =~= labels_bytes(labels));
    }
}

/// The response that is made for a query has its identifier, is marked as a
/// response, has the code, and counts no question and no record.
pub proof fn law_bare_response_is_written(query: Seq<u8>, code: u8)
    requires
        query.len() >= 2,
    ensures
        wire::bare_response(query, code) == query.take(2) + seq![128u8, code] + two_bytes(0)
            + two_bytes(0) + two_bytes(0) + two_bytes(0),
{
    assert(wire::bare_response(query, code) =~= query.take(2) + seq![128u8, code] + two_bytes(0)
        + two_bytes(0) + two_bytes(0) + two_bytes(0));
}

} // verus!
