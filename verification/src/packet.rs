//! The RADIUS wire format: type-length-value attributes and the
//! 20-byte-header packet that carries them.

use vstd::prelude::*;
use vstd::string::*;

verus! {

broadcast use vstd::string::group_string_axioms;

/// Why a datagram was rejected by the codec.
#[derive(Clone, Copy, Debug, PartialEq, Eq, Structural)]
pub enum ProtocolError {
    /// Fewer than 20 bytes: no complete header.
    TooShort,
    /// The declared length exceeds the bytes actually received.
    LengthMismatch,
    /// An attribute header would run past the declared packet length;
    /// carries the offset of the attribute.
    TruncatedAttribute(usize),
    /// An attribute length below 2, or one running past the declared packet
    /// length; carries the offset and the declared attribute length.
    InvalidAttributeLength(usize, u8),
}

/// A single type-length-value attribute. `len` counts the two header bytes,
/// so a well-formed attribute has `len == 2 + value.len()`.
#[derive(Debug, Clone)]
pub struct RadiusAttribute {
    pub typ: u8,
    pub len: u8,
    pub value: Vec<u8>,
}

/// The mathematical image of an attribute.
pub struct AttrModel {
    pub typ: u8,
    pub len: u8,
    pub value: Seq<u8>,
}

impl View for RadiusAttribute {
    type V = AttrModel;

    open spec fn view(&self) -> AttrModel {
        AttrModel { typ: self.typ, len: self.len, value: self.value@ }
    }
}

/// The length byte agrees with the payload.
pub open spec fn attr_wf(a: AttrModel) -> bool {
    a.len == 2 + a.value.len()
}

/// The wire bytes of one attribute.
pub open spec fn attr_bytes(a: AttrModel) -> Seq<u8> {
    seq![a.typ, a.len] + a.value
}

/// The wire bytes of a sequence of attributes, in order.
pub open spec fn attrs_bytes(s: Seq<AttrModel>) -> Seq<u8>
    decreases s.len(),
{
    if s.len() == 0 {
        Seq::empty()
    } else {
        attr_bytes(s[0]) + attrs_bytes(s.skip(1))
    }
}

/// Total wire size of a sequence of attributes: the sum of `2 + value.len()`.
pub open spec fn attrs_len(s: Seq<AttrModel>) -> int
    decreases s.len(),
{
    if s.len() == 0 {
        0
    } else {
        2 + s[0].value.len() + attrs_len(s.skip(1))
    }
}

pub open spec fn all_attrs_wf(s: Seq<AttrModel>) -> bool {
    forall|i: int| 0 <= i < s.len() ==> attr_wf(#[trigger] s[i])
}

pub proof fn lemma_attrs_bytes_len(s: Seq<AttrModel>)
    ensures
        attrs_bytes(s).len() == attrs_len(s),
        attrs_len(s) >= 0,
    decreases s.len(),
{
    if s.len() != 0 {
        lemma_attrs_bytes_len(s.skip(1));
    }
}

/// Big-endian bytes of a 32-bit integer.
pub open spec fn u32_be(x: u32) -> Seq<u8> {
    seq![
        (x / 0x1000000) as u8,
        ((x / 0x10000) % 256) as u8,
        ((x / 256) % 256) as u8,
        (x % 256) as u8,
    ]
}

/// Pushes the big-endian bytes of `x` onto `out`.
pub fn push_u32_be(out: &mut Vec<u8>, x: u32)
    ensures
        final(out)@ == old(out)@ + u32_be(x),
{
    out.push((x / 0x1000000) as u8);
    out.push(((x / 0x10000) % 256) as u8);
    out.push(((x / 256) % 256) as u8);
    out.push((x % 256) as u8);
    assert(out@ =~= old(out)@ + u32_be(x));
}

impl RadiusAttribute {
    /// A Reply-Message (type 18) attribute carrying the given text.
    pub fn reply_message(msg: &str) -> (r: RadiusAttribute)
        requires
            msg.spec_bytes().len() <= 253,
        ensures
            r@.typ == 18,
            r@.value == msg.spec_bytes(),
            attr_wf(r@),
    {
        let value: Vec<u8> = msg.as_bytes_vec();
        let len: u8 = (value.len() + 2) as u8;
        RadiusAttribute { typ: 18, len, value }
    }

    /// A User-Name (type 1) attribute carrying the given name.
    pub fn user_name(name: &str) -> (r: RadiusAttribute)
        requires
            name.spec_bytes().len() <= 253,
        ensures
            r@.typ == 1,
            r@.value == name.spec_bytes(),
            attr_wf(r@),
    {
        let value: Vec<u8> = name.as_bytes_vec();
        let len: u8 = (value.len() + 2) as u8;
        RadiusAttribute { typ: 1, len, value }
    }

    /// A Vendor-Specific (type 26) attribute: a 4-byte big-endian vendor ID
    /// followed by the caller's payload.
    pub fn vendor_specific(vendor_id: u32, payload: Vec<u8>) -> (r: RadiusAttribute)
        requires
            payload@.len() <= 249,
        ensures
            r@.typ == 26,
            r@.value == u32_be(vendor_id) + payload@,
            attr_wf(r@),
    {
        let mut value: Vec<u8> = Vec::new();
        push_u32_be(&mut value, vendor_id);
        let mut k: usize = 0;
        while k < payload.len()
            invariant
                k <= payload@.len() <= 249,
                value@ == u32_be(vendor_id) + payload@.take(k as int),
            decreases payload@.len() - k,
        {
            value.push(payload[k]);
            k = k + 1;
            assert(value@ =~= u32_be(vendor_id) + payload@.take(k as int));
        }
        assert(payload@.take(payload@.len() as int) =~= payload@);
        let len: u8 = (2 + value.len()) as u8;
        RadiusAttribute { typ: 26, len, value }
    }

    /// The WISPr (vendor 14122) maximum upstream bandwidth sub-attribute,
    /// vendor type 7, carrying the rate in bits per second.
    pub fn wispr_bandwidth_max_up(bps: u32) -> (r: RadiusAttribute)
        ensures
            r@.typ == 26,
            r@.value == u32_be(14122) + seq![7u8, 6u8] + u32_be(bps),
            attr_wf(r@),
    {
        let mut value: Vec<u8> = Vec::new();
        push_u32_be(&mut value, 14122);
        value.push(7);
        value.push(6);
        push_u32_be(&mut value, bps);
        assert(value@ =~= u32_be(14122) + seq![7u8, 6u8] + u32_be(bps));
        RadiusAttribute { typ: 26, len: (2 + value.len()) as u8, value }
    }

    /// The WISPr (vendor 14122) maximum downstream bandwidth sub-attribute,
    /// vendor type 8, carrying the rate in bits per second.
    pub fn wispr_bandwidth_max_down(bps: u32) -> (r: RadiusAttribute)
        ensures
            r@.typ == 26,
            r@.value == u32_be(14122) + seq![8u8, 6u8] + u32_be(bps),
            attr_wf(r@),
    {
        let mut value: Vec<u8> = Vec::new();
        push_u32_be(&mut value, 14122);
        value.push(8);
        value.push(6);
        push_u32_be(&mut value, bps);
        assert(value@ =~= u32_be(14122) + seq![8u8, 6u8] + u32_be(bps));
        RadiusAttribute { typ: 26, len: (2 + value.len()) as u8, value }
    }

    /// A Session-Timeout (type 27) attribute carrying seconds, big-endian.
    pub fn session_timeout(seconds: u32) -> (r: RadiusAttribute)
        ensures
            r@.typ == 27,
            r@.value == u32_be(seconds),
            attr_wf(r@),
    {
        let mut value: Vec<u8> = Vec::new();
        push_u32_be(&mut value, seconds);
        RadiusAttribute { typ: 27, len: 6, value }
    }

    /// An Idle-Timeout (type 28) attribute carrying seconds, big-endian.
    pub fn idle_timeout(seconds: u32) -> (r: RadiusAttribute)
        ensures
            r@.typ == 28,
            r@.value == u32_be(seconds),
            attr_wf(r@),
    {
        let mut value: Vec<u8> = Vec::new();
        push_u32_be(&mut value, seconds);
        RadiusAttribute { typ: 28, len: 6, value }
    }
}

/// A full RADIUS packet: fixed 20-byte header plus attributes.
#[derive(Debug, Clone)]
pub struct RadiusPacket {
    pub code: u8,
    pub identifier: u8,
    pub length: u16,
    pub authenticator: [u8; 16],
    pub attributes: Vec<RadiusAttribute>,
}

/// The mathematical image of a packet.
pub struct PacketModel {
    pub code: u8,
    pub identifier: u8,
    pub length: u16,
    pub authenticator: Seq<u8>,
    pub attributes: Seq<AttrModel>,
}

/// The views of a sequence of attributes, in order.
pub open spec fn attr_views(s: Seq<RadiusAttribute>) -> Seq<AttrModel> {
    Seq::new(s.len(), |i: int| s[i]@)
}

impl View for RadiusPacket {
    type V = PacketModel;

    open spec fn view(&self) -> PacketModel {
        PacketModel {
            code: self.code,
            identifier: self.identifier,
            length: self.length,
            authenticator: self.authenticator@,
            attributes: attr_views(self.attributes@),
        }
    }
}

/// Every attribute carries a length byte that agrees with its payload.
pub open spec fn packet_wf(p: PacketModel) -> bool {
    all_attrs_wf(p.attributes)
}

/// The total packet length stays within the 2-byte length field.
pub open spec fn packet_len_fits(p: PacketModel) -> bool {
    20 + attrs_len(p.attributes) <= 0xFFFF
}

/// The 16 zero bytes that stand in a response before its authenticator is
/// computed, and in the authenticator position during accounting
/// verification.
pub open spec fn zeros16() -> Seq<u8> {
    Seq::new(16, |i: int| 0u8)
}

/// The 20 header bytes: code, identifier, big-endian length, authenticator.
pub open spec fn header_bytes(code: u8, identifier: u8, length: u16, auth: Seq<u8>) -> Seq<u8> {
    seq![code, identifier, (length / 256) as u8, (length % 256) as u8] + auth
}

/// The wire encoding of a packet, with the length field recomputed from the
/// attributes actually present.
pub open spec fn encoded_bytes(p: PacketModel) -> Seq<u8> {
    header_bytes(
        p.code,
        p.identifier,
        (20 + attrs_len(p.attributes)) as u16,
        p.authenticator,
    ) + attrs_bytes(p.attributes)
}

pub proof fn lemma_attrs_bytes_push(s: Seq<AttrModel>, a: AttrModel)
    ensures
        attrs_bytes(s.push(a)) == attrs_bytes(s) + attr_bytes(a),
        attrs_len(s.push(a)) == attrs_len(s) + 2 + a.value.len(),
    decreases s.len(),
{
    if s.len() == 0 {
        assert(s.push(a)[0] == a);
        assert(s.push(a).skip(1) =~= Seq::<AttrModel>::empty());
        assert(attrs_bytes(Seq::<AttrModel>::empty()) =~= Seq::<u8>::empty());
        assert(attrs_len(Seq::<AttrModel>::empty()) == 0);
        assert(attrs_bytes(s.push(a)) =~= attrs_bytes(s) + attr_bytes(a));
        assert(attrs_len(s.push(a)) == attrs_len(s) + 2 + a.value.len());
    } else {
        assert(s.push(a).skip(1) =~= s.skip(1).push(a));
        lemma_attrs_bytes_push(s.skip(1), a);
        assert(s.push(a)[0] == s[0]);
        assert(attrs_bytes(s.push(a)) =~= attrs_bytes(s) + attr_bytes(a));
        assert(attrs_len(s.push(a)) == attrs_len(s) + 2 + a.value.len());
    }
}

/// Serializes a header with the given authenticator bytes followed by the
/// attributes, back-patching the 2-byte length field to the byte count
/// produced.
pub(crate) fn encode_packet_bytes(
    code: u8,
    identifier: u8,
    auth: &[u8; 16],
    attributes: &Vec<RadiusAttribute>,
) -> (r: Vec<u8>)
    requires
        all_attrs_wf(attr_views(attributes@)),
        20 + attrs_len(attr_views(attributes@)) <= 0xFFFF,
    ensures
        r@ == header_bytes(
            code,
            identifier,
            (20 + attrs_len(attr_views(attributes@))) as u16,
            auth@,
        ) + attrs_bytes(attr_views(attributes@)),
        r@.len() == 20 + attrs_len(attr_views(attributes@)),
{
    let ghost views = attr_views(attributes@);
    proof {
        lemma_attrs_bytes_len(views);
    }
    let mut buf: Vec<u8> = Vec::new();
    buf.push(code);
    buf.push(identifier);
    buf.push(0);
    buf.push(0);
    let mut k: usize = 0;
    while k < 16
        invariant
            k <= 16,
            buf@ == seq![code, identifier, 0u8, 0u8] + auth@.take(k as int),
        decreases 16 - k,
    {
        buf.push(auth[k]);
        k = k + 1;
        assert(buf@ =~= seq![code, identifier, 0u8, 0u8] + auth@.take(k as int));
    }
    assert(auth@.take(16) =~= auth@);

    let mut j: usize = 0;
    while j < attributes.len()
        invariant
            j <= attributes@.len(),
            views == attr_views(attributes@),
            all_attrs_wf(views),
            20 + attrs_len(views) <= 0xFFFF,
            attrs_bytes(views).len() == attrs_len(views),
            buf@ == seq![code, identifier, 0u8, 0u8] + auth@ + attrs_bytes(views.take(j as int)),
            buf@.len() == 20 + attrs_len(views.take(j as int)),
        decreases attributes@.len() - j,
    {
        let ghost prev = views.take(j as int);
        proof {
            assert(views.take(j + 1) =~= prev.push(views[j as int]));
            lemma_attrs_bytes_push(prev, views[j as int]);
            lemma_attrs_len_prefix(views, j + 1);
            lemma_attrs_bytes_len(views.take(j + 1));
        }
        let a = &attributes[j];
        assert(a@ == views[j as int]);
        buf.push(a.typ);
        buf.push(a.len);
        let mut t: usize = 0;
        while t < a.value.len()
            invariant
                t <= a.value@.len(),
                buf@ == seq![code, identifier, 0u8, 0u8] + auth@ + attrs_bytes(prev)
                    + seq![a.typ, a.len] + a.value@.take(t as int),
            decreases a.value@.len() - t,
        {
            buf.push(a.value[t]);
            t = t + 1;
            assert(buf@ =~= seq![code, identifier, 0u8, 0u8] + auth@ + attrs_bytes(prev)
                + seq![a.typ, a.len] + a.value@.take(t as int));
        }
        j = j + 1;
        proof {
            assert(a.value@.take(a.value@.len() as int) =~= a.value@);
            assert(buf@ =~= seq![code, identifier, 0u8, 0u8] + auth@
                + attrs_bytes(views.take(j as int)));
        }
    }
    proof {
        assert(views.take(views.len() as int) =~= views);
    }

    let total: usize = buf.len();
    let length: u16 = total as u16;
    let hi: u8 = (length / 256) as u8;
    let lo: u8 = (length % 256) as u8;
    buf.set(2, hi);
    buf.set(3, lo);
    assert(buf@ =~= header_bytes(code, identifier, length, auth@) + attrs_bytes(views));
    buf
}

/// A prefix never has more attribute bytes than the whole.
pub proof fn lemma_attrs_len_prefix(s: Seq<AttrModel>, n: int)
    requires
        0 <= n <= s.len(),
    ensures
        attrs_len(s.take(n)) <= attrs_len(s),
    decreases n,
{
    if n > 0 {
        lemma_attrs_len_prefix(s.skip(1), n - 1);
        assert(s.take(n).skip(1) =~= s.skip(1).take(n - 1));
        lemma_attrs_len_nonneg(s.skip(1));
    } else {
        lemma_attrs_len_nonneg(s);
    }
}

pub proof fn lemma_attrs_len_nonneg(s: Seq<AttrModel>)
    ensures
        attrs_len(s) >= 0,
    decreases s.len(),
{
    if s.len() != 0 {
        lemma_attrs_len_nonneg(s.skip(1));
    }
}

/// The length declared in a packet's header: bytes 2 and 3, big-endian.
pub open spec fn declared_len(b: Seq<u8>) -> int {
    b[2] * 256 + b[3]
}

/// Parses the attribute region `b[i .. end]`, in arrival order.
pub open spec fn parse_attrs(b: Seq<u8>, i: int, end: int) -> Result<Seq<AttrModel>, ProtocolError>
    decreases end - i,
{
    if i >= end {
        Ok(Seq::empty())
    } else if i + 2 > end {
        Err(ProtocolError::TruncatedAttribute(i as usize))
    } else if b[i + 1] < 2 || i + b[i + 1] > end {
        Err(ProtocolError::InvalidAttributeLength(i as usize, b[i + 1]))
    } else {
        match parse_attrs(b, i + b[i + 1], end) {
            Ok(rest) => Ok(
                seq![
                    AttrModel {
                        typ: b[i],
                        len: b[i + 1],
                        value: b.subrange(i + 2, i + b[i + 1]),
                    },
                ] + rest,
            ),
            Err(e) => Err(e),
        }
    }
}

/// Parses a whole datagram: header checks, then the attribute region from
/// offset 20 to the declared length. Trailing bytes beyond the declared
/// length are ignored.
pub open spec fn parse_packet(b: Seq<u8>) -> Result<PacketModel, ProtocolError> {
    if b.len() < 20 {
        Err(ProtocolError::TooShort)
    } else if b.len() < declared_len(b) {
        Err(ProtocolError::LengthMismatch)
    } else {
        match parse_attrs(b, 20, declared_len(b)) {
            Ok(attrs) => Ok(
                PacketModel {
                    code: b[0],
                    identifier: b[1],
                    length: declared_len(b) as u16,
                    authenticator: b.subrange(4, 20),
                    attributes: attrs,
                },
            ),
            Err(e) => Err(e),
        }
    }
}

/// Every attribute a successful parse yields is well formed, and their total
/// wire size is exactly the region parsed.
pub proof fn lemma_parse_attrs_wf(b: Seq<u8>, i: int, end: int)
    requires
        0 <= i,
        end <= b.len(),
        parse_attrs(b, i, end) is Ok,
    ensures
        all_attrs_wf(parse_attrs(b, i, end).unwrap()),
        attrs_len(parse_attrs(b, i, end).unwrap()) == if i < end { end - i } else { 0 },
    decreases end - i,
{
    if i >= end {
    } else {
        let l = b[i + 1] as int;
        lemma_parse_attrs_wf(b, i + l, end);
        let rest = parse_attrs(b, i + l, end).unwrap();
        let head = AttrModel { typ: b[i], len: b[i + 1], value: b.subrange(i + 2, i + l) };
        let whole = parse_attrs(b, i, end).unwrap();
        assert(whole == seq![head] + rest);
        assert(whole[0] == head);
        assert(whole.skip(1) =~= rest);
        assert(attrs_len(whole) == 2 + head.value.len() + attrs_len(rest));
    }
}

/// A decoded packet is well formed, and — whenever the declared length
/// covers the header at all — its length field is exactly 20 plus the wire
/// size of its attributes.
pub proof fn lemma_parse_packet_wf(b: Seq<u8>)
    requires
        parse_packet(b) is Ok,
    ensures
        packet_wf(parse_packet(b).unwrap()),
        parse_packet(b).unwrap().authenticator.len() == 16,
        declared_len(b) >= 20 ==> parse_packet(b).unwrap().length == 20 + attrs_len(
            parse_packet(b).unwrap().attributes,
        ),
        declared_len(b) < 20 ==> parse_packet(b).unwrap().attributes.len() == 0,
{
    let l = declared_len(b);
    lemma_parse_attrs_wf(b, 20, l);
    if l < 20 {
        assert(parse_attrs(b, 20, l) == Ok::<Seq<AttrModel>, ProtocolError>(Seq::empty()));
    }
}

impl RadiusPacket {
    /// Parses a raw datagram into a packet, or says exactly why it cannot.
    pub fn from_bytes(buf: &[u8]) -> (r: Result<RadiusPacket, ProtocolError>)
        ensures
            match r {
                Ok(p) => parse_packet(buf@) == Ok::<PacketModel, ProtocolError>(p@),
                Err(e) => parse_packet(buf@) == Err::<PacketModel, ProtocolError>(e),
            },
    {
        if buf.len() < 20 {
            return Err(ProtocolError::TooShort);
        }

        let code: u8 = buf[0];
        let identifier: u8 = buf[1];
        let length: usize = (buf[2] as usize) * 256 + (buf[3] as usize);
        assert(length == declared_len(buf@));

        if buf.len() < length {
            return Err(ProtocolError::LengthMismatch);
        }

        let mut authenticator: [u8; 16] = [0u8; 16];
        let mut k: usize = 0;
        while k < 16
            invariant
                k <= 16,
                buf@.len() >= 20,
                forall|t: int| 0 <= t < k ==> authenticator@[t] == buf@[4 + t],
            decreases 16 - k,
        {
            authenticator[k] = buf[4 + k];
            k = k + 1;
        }
        assert(authenticator@ =~= buf@.subrange(4, 20));

        let ghost bv = buf@;
        let ghost end = length as int;
        let mut attributes: Vec<RadiusAttribute> = Vec::new();
        let mut i: usize = 20;

        while i < length
            invariant
                20 <= i,
                i <= end || 20 > end,
                end == length,
                end == declared_len(bv),
                end <= 65535,
                bv == buf@,
                bv.len() >= 20,
                length <= bv.len() <= usize::MAX,
                forall|t: int| 0 <= t < attr_views(attributes@).len()
                    ==> attr_wf(#[trigger] attr_views(attributes@)[t]),
                parse_attrs(bv, 20, end) == match parse_attrs(bv, i as int, end) {
                    Ok(rest) => Ok::<Seq<AttrModel>, ProtocolError>(
                        attr_views(attributes@) + rest,
                    ),
                    Err(e) => Err::<Seq<AttrModel>, ProtocolError>(e),
                },
            decreases end - i,
        {
            if i + 2 > length {
                assert(parse_attrs(bv, i as int, end) == Err::<Seq<AttrModel>, ProtocolError>(
                    ProtocolError::TruncatedAttribute(i),
                ));
                return Err(ProtocolError::TruncatedAttribute(i));
            }

            let typ: u8 = buf[i];
            let len_byte: u8 = buf[i + 1];
            let len: usize = len_byte as usize;

            if len < 2 || i + len > length {
                assert(parse_attrs(bv, i as int, end) == Err::<Seq<AttrModel>, ProtocolError>(
                    ProtocolError::InvalidAttributeLength(i, len_byte),
                ));
                return Err(ProtocolError::InvalidAttributeLength(i, len_byte));
            }

            let mut value: Vec<u8> = Vec::new();
            let mut t: usize = i + 2;
            while t < i + len
                invariant
                    i + 2 <= t <= i + len,
                    i + len <= bv.len() <= usize::MAX,
                    bv == buf@,
                    value@ == bv.subrange(i + 2, t as int),
                decreases i + len - t,
            {
                value.push(buf[t]);
                t = t + 1;
                assert(value@ =~= bv.subrange(i + 2, t as int));
            }

            let ghost head = AttrModel { typ: typ, len: len_byte, value: bv.subrange(i + 2, i + len) };
            let ghost prev = attr_views(attributes@);
            attributes.push(RadiusAttribute { typ, len: len_byte, value });
            proof {
                assert(attr_views(attributes@) =~= prev.push(head));
                assert(parse_attrs(bv, i as int, end) == match parse_attrs(bv, i + len, end) {
                    Ok(rest) => Ok::<Seq<AttrModel>, ProtocolError>(seq![head] + rest),
                    Err(e) => Err::<Seq<AttrModel>, ProtocolError>(e),
                });
                if parse_attrs(bv, i + len, end) is Ok {
                    let rest = parse_attrs(bv, i + len, end).unwrap();
                    assert(prev + (seq![head] + rest) =~= prev.push(head) + rest);
                }
            }
            i = i + len;
        }

        proof {
            assert(parse_attrs(bv, i as int, end) == Ok::<Seq<AttrModel>, ProtocolError>(
                Seq::empty(),
            ));
            let whole = parse_attrs(bv, 20, end).unwrap();
            assert(whole =~= attr_views(attributes@) + Seq::empty());
            assert(whole =~= attr_views(attributes@));
        }

        Ok(RadiusPacket { code, identifier, length: length as u16, authenticator, attributes })
    }

    /// Serializes the packet: header, authenticator, attributes in order,
    /// with the length field recomputed as 20 plus the attribute bytes.
    pub fn to_bytes(&self) -> (r: Vec<u8>)
        requires
            packet_wf(self@),
            packet_len_fits(self@),
        ensures
            r@ == encoded_bytes(self@),
            r@.len() == 20 + attrs_len(self@.attributes),
    {
        encode_packet_bytes(self.code, self.identifier, &self.authenticator, &self.attributes)
    }
}

/// A region that holds exactly the wire bytes of well-formed attributes
/// parses back to those attributes.
pub proof fn lemma_parse_attrs_inverse(b: Seq<u8>, i: int, s: Seq<AttrModel>)
    requires
        all_attrs_wf(s),
        0 <= i,
        i + attrs_len(s) <= b.len(),
        b.subrange(i, i + attrs_len(s)) == attrs_bytes(s),
    ensures
        parse_attrs(b, i, i + attrs_len(s)) == Ok::<Seq<AttrModel>, ProtocolError>(s),
    decreases s.len(),
{
    lemma_attrs_bytes_len(s);
    let end = i + attrs_len(s);
    if s.len() == 0 {
        assert(parse_attrs(b, i, end) == Ok::<Seq<AttrModel>, ProtocolError>(Seq::empty()));
        assert(Seq::<AttrModel>::empty() =~= s);
    } else {
        let a = s[0];
        let al = 2 + a.value.len() as int;
        let rest = s.skip(1);
        lemma_attrs_len_nonneg(rest);
        lemma_attrs_bytes_len(rest);
        assert(attrs_len(s) == al + attrs_len(rest));
        let bytes = attrs_bytes(s);
        assert(bytes == attr_bytes(a) + attrs_bytes(rest));
        assert(b[i] == bytes[0] && b[i + 1] == bytes[1]) by {
            assert(b.subrange(i, end)[0] == b[i]);
            assert(b.subrange(i, end)[1] == b[i + 1]);
        }
        assert(bytes[0] == a.typ && bytes[1] == a.len);
        assert(a.len == al);
        assert forall|t: int| 0 <= t < a.value.len() implies b.subrange(i + 2, i + al)[t]
            == a.value[t] by {
            assert(b.subrange(i, end)[2 + t] == b[i + 2 + t]);
            assert(bytes[2 + t] == a.value[t]);
        }
        assert(b.subrange(i + 2, i + al) =~= a.value);
        assert forall|t: int| 0 <= t < attrs_len(rest) implies b.subrange(i + al, end)[t]
            == attrs_bytes(rest)[t] by {
            assert(b.subrange(i, end)[al + t] == b[i + al + t]);
            assert(bytes[al + t] == attrs_bytes(rest)[t]);
        }
        assert(b.subrange(i + al, end) =~= attrs_bytes(rest));
        lemma_parse_attrs_inverse(b, i + al, rest);
        let head = AttrModel { typ: b[i], len: b[i + 1], value: b.subrange(i + 2, i + al) };
        assert(head == a);
        assert(parse_attrs(b, i, end) == Ok::<Seq<AttrModel>, ProtocolError>(seq![head] + rest));
        assert(seq![head] + rest =~= s);
    }
}

/// Round trip: decoding an encoded packet gives back its code, identifier,
/// authenticator and attributes, and a length field of 20 plus the
/// attribute bytes.
pub proof fn lemma_packet_round_trip(p: PacketModel)
    requires
        packet_wf(p),
        packet_len_fits(p),
        p.authenticator.len() == 16,
    ensures
        ({
            let parsed = parse_packet(encoded_bytes(p));
            &&& parsed is Ok
            &&& parsed.unwrap().code == p.code
            &&& parsed.unwrap().identifier == p.identifier
            &&& parsed.unwrap().authenticator == p.authenticator
            &&& parsed.unwrap().attributes == p.attributes
            &&& parsed.unwrap().length == 20 + attrs_len(p.attributes)
        }),
{
    lemma_attrs_len_nonneg(p.attributes);
    lemma_attrs_bytes_len(p.attributes);
    let al = attrs_len(p.attributes);
    let length = (20 + al) as u16;
    let b = encoded_bytes(p);
    let hdr = header_bytes(p.code, p.identifier, length, p.authenticator);
    assert(hdr.len() == 20);
    assert(b.len() == 20 + al);
    assert(b[2] == (length / 256) as u8 && b[3] == (length % 256) as u8);
    assert(declared_len(b) == length);
    assert(b.subrange(4, 20) =~= p.authenticator);
    assert(b.subrange(20, 20 + al) =~= attrs_bytes(p.attributes));
    lemma_parse_attrs_inverse(b, 20, p.attributes);
}

/// The first User-Name (type 1) attribute's value, if any.
pub open spec fn first_user_name(s: Seq<AttrModel>) -> Option<Seq<u8>>
    decreases s.len(),
{
    if s.len() == 0 {
        None
    } else if s[0].typ == 1 {
        Some(s[0].value)
    } else {
        first_user_name(s.skip(1))
    }
}

/// Relies on std's str::from_utf8: it succeeds exactly on valid UTF-8, and
/// the returned slice's characters are the decoding of those bytes.
#[verifier::external_body]
pub(crate) fn utf8_str<'a>(v: &'a [u8]) -> (r: Option<&'a str>)
    ensures
        r is Some <==> vstd::utf8::valid_utf8(v@),
        r matches Some(s) ==> s@ == vstd::utf8::decode_utf8(v@),
{
    std::str::from_utf8(v).ok()
}

/// The parsed inside of a Vendor-Specific attribute value: vendor ID, then
/// one vendor-type/vendor-length/vendor-data sub-attribute.
#[derive(Debug, Clone)]
pub struct VendorData {
    pub vendor_id: u32,
    pub vendor_type: u8,
    pub vendor_len: u8,
    pub data: Vec<u8>,
}

/// The 32-bit big-endian value of the first four bytes.
pub open spec fn be32_val(b: Seq<u8>) -> int {
    b[0] * 0x1000000 + b[1] * 0x10000 + b[2] * 256 + b[3]
}

/// The mathematical image of `VendorData`.
pub struct VendorModel {
    pub vendor_id: int,
    pub vendor_type: u8,
    pub vendor_len: u8,
    pub data: Seq<u8>,
}

/// How the inside of a Vendor-Specific value reads: 4-byte vendor ID, one
/// sub-attribute header, and as much data as the vendor length declares —
/// or no data at all where the declared length runs past the value.
pub open spec fn parse_vendor_value(value: Seq<u8>) -> Option<VendorModel> {
    if value.len() < 6 {
        None
    } else {
        let dl: int = if value[5] >= 2 {
            value[5] - 2
        } else {
            0
        };
        Some(
            VendorModel {
                vendor_id: be32_val(value.subrange(0, 4)),
                vendor_type: value[4],
                vendor_len: value[5],
                data: if 6 + dl <= value.len() {
                    value.subrange(6, 6 + dl)
                } else {
                    Seq::empty()
                },
            },
        )
    }
}

/// Reads the vendor ID and the first sub-attribute out of a
/// Vendor-Specific attribute value; requires at least the 4-byte vendor ID
/// and a 2-byte sub-attribute header to be present.
pub fn decode_vendor_specific(value: &[u8]) -> (r: Option<VendorData>)
    ensures
        r is Some <==> parse_vendor_value(value@) is Some,
        r matches Some(v) ==> parse_vendor_value(value@) matches Some(m)
            && v.vendor_id == m.vendor_id
            && v.vendor_type == m.vendor_type
            && v.vendor_len == m.vendor_len
            && v.data@ == m.data,
{
    if value.len() < 6 {
        return None;
    }
    let vendor_id: u32 = (value[0] as u32) * 0x1000000 + (value[1] as u32) * 0x10000
        + (value[2] as u32) * 256 + (value[3] as u32);
    assert(vendor_id == be32_val(value@.subrange(0, 4))) by {
        assert(value@.subrange(0, 4)[0] == value@[0]);
        assert(value@.subrange(0, 4)[1] == value@[1]);
        assert(value@.subrange(0, 4)[2] == value@[2]);
        assert(value@.subrange(0, 4)[3] == value@[3]);
    }
    let vendor_type: u8 = value[4];
    let vendor_len: u8 = value[5];
    let dl: usize = if vendor_len >= 2 {
        (vendor_len - 2) as usize
    } else {
        0
    };
    let mut data: Vec<u8> = Vec::new();
    let vlen: usize = value.len();
    if 6 + dl <= vlen {
        let mut t: usize = 6;
        while t < 6 + dl
            invariant
                6 <= t <= 6 + dl,
                dl <= 253,
                6 + dl <= vlen,
                vlen == value@.len(),
                data@ == value@.subrange(6, t as int),
            decreases 6 + dl - t,
        {
            data.push(value[t]);
            t = t + 1;
            assert(data@ =~= value@.subrange(6, t as int));
        }
    } else {
        assert(data@ =~= Seq::<u8>::empty());
    }
    Some(VendorData { vendor_id, vendor_type, vendor_len, data })
}

/// Recomposing big-endian bytes of a 32-bit value gives the value back.
pub proof fn lemma_be32_of_u32_be(x: u32)
    ensures
        be32_val(u32_be(x)) == x,
{
    assert(be32_val(u32_be(x)) == (x / 0x1000000) * 0x1000000 + ((x / 0x10000) % 256) * 0x10000
        + ((x / 256) % 256) * 256 + (x % 256));
    assert((x / 0x1000000) * 0x1000000 + ((x / 0x10000) % 256) * 0x10000 + ((x / 256) % 256) * 256
        + (x % 256) == x) by (nonlinear_arith);
}

/// A vendor-specific attribute whose payload is one whole sub-TLV decodes
/// back to the vendor ID and the payload it was built from.
pub proof fn lemma_vendor_specific_round_trip(vendor_id: u32, payload: Seq<u8>)
    requires
        2 <= payload.len() <= 249,
        payload[1] == payload.len(),
    ensures
        ({
            let value = u32_be(vendor_id) + payload;
            let parsed = parse_vendor_value(value);
            &&& parsed is Some
            &&& parsed.unwrap().vendor_id == vendor_id
            &&& parsed.unwrap().vendor_type == payload[0]
            &&& parsed.unwrap().vendor_len == payload[1]
            &&& parsed.unwrap().data == payload.skip(2)
        }),
{
    let value = u32_be(vendor_id) + payload;
    lemma_be32_of_u32_be(vendor_id);
    assert(value.subrange(0, 4) =~= u32_be(vendor_id));
    assert(value[4] == payload[0] && value[5] == payload[1]);
    let dl: int = payload[1] - 2;
    assert(6 + dl == 4 + payload.len());
    assert(value.subrange(6, 6 + dl) =~= payload.skip(2));
}

/// The catalog name of a standard attribute type.
pub open spec fn spec_radius_type_name(typ: u8) -> Seq<char> {
    if typ == 1 {
        "User-Name"@
    } else if typ == 2 {
        "User-Password"@
    } else if typ == 3 {
        "CHAP-Password"@
    } else if typ == 4 {
        "NAS-IP-Address"@
    } else if typ == 18 {
        "Reply-Message"@
    } else if typ == 26 {
        "Vendor-Specific"@
    } else if typ == 27 {
        "Session-Timeout"@
    } else if typ == 28 {
        "Idle-Timeout"@
    } else if typ == 80 {
        "Message-Authenticator"@
    } else {
        "Unknown"@
    }
}

/// A display name for the best-known attribute types.
pub fn radius_type_name(typ: u8) -> (r: &'static str)
    ensures
        r@ == spec_radius_type_name(typ),
{
    match typ {
        1 => "User-Name",
        2 => "User-Password",
        3 => "CHAP-Password",
        4 => "NAS-IP-Address",
        18 => "Reply-Message",
        26 => "Vendor-Specific",
        27 => "Session-Timeout",
        28 => "Idle-Timeout",
        80 => "Message-Authenticator",
        _ => "Unknown",
    }
}

impl RadiusPacket {
    /// An Access-Accept (code 2) response echoing the given identifier and
    /// carrying the caller's attributes; the authenticator stays all-zero
    /// until the authenticator protocol stamps it.
    pub fn access_accept(identifier: u8, attributes: Vec<RadiusAttribute>) -> (r: RadiusPacket)
        ensures
            r@.code == 2,
            r@.identifier == identifier,
            r@.length == 0,
            r@.authenticator == zeros16(),
            r@.attributes == attr_views(attributes@),
    {
        let r = RadiusPacket {
            code: 2,
            identifier,
            length: 0,
            authenticator: [0u8; 16],
            attributes,
        };
        assert(r.authenticator@ =~= zeros16());
        r
    }

    /// An Access-Reject (code 3) response carrying exactly one
    /// Reply-Message attribute with the given text.
    pub fn access_reject(identifier: u8, msg: &str) -> (r: RadiusPacket)
        requires
            msg.spec_bytes().len() <= 253,
        ensures
            r@.code == 3,
            r@.identifier == identifier,
            r@.length == 0,
            r@.authenticator == zeros16(),
            r@.attributes.len() == 1,
            r@.attributes[0].typ == 18,
            r@.attributes[0].value == msg.spec_bytes(),
            packet_wf(r@),
    {
        let attributes = vec![RadiusAttribute::reply_message(msg)];
        let r = RadiusPacket {
            code: 3,
            identifier,
            length: 0,
            authenticator: [0u8; 16],
            attributes,
        };
        assert(r.authenticator@ =~= zeros16());
        r
    }

    /// An Access-Challenge (code 11) response carrying exactly one
    /// Reply-Message attribute with the given text.
    pub fn access_challenge(identifier: u8, msg: &str) -> (r: RadiusPacket)
        requires
            msg.spec_bytes().len() <= 253,
        ensures
            r@.code == 11,
            r@.identifier == identifier,
            r@.length == 0,
            r@.authenticator == zeros16(),
            r@.attributes.len() == 1,
            r@.attributes[0].typ == 18,
            r@.attributes[0].value == msg.spec_bytes(),
            packet_wf(r@),
    {
        let attributes = vec![RadiusAttribute::reply_message(msg)];
        let r = RadiusPacket {
            code: 11,
            identifier,
            length: 0,
            authenticator: [0u8; 16],
            attributes,
        };
        assert(r.authenticator@ =~= zeros16());
        r
    }

    /// An Access-Accept reply to this packet, echoing its identifier.
    pub fn reply_accept(&self, attributes: Vec<RadiusAttribute>) -> (r: RadiusPacket)
        ensures
            r@.code == 2,
            r@.identifier == self@.identifier,
            r@.length == 0,
            r@.authenticator == zeros16(),
            r@.attributes == attr_views(attributes@),
    {
        RadiusPacket::access_accept(self.identifier, attributes)
    }

    /// An Access-Reject reply to this packet, echoing its identifier.
    pub fn reply_reject(&self, message: &str) -> (r: RadiusPacket)
        requires
            message.spec_bytes().len() <= 253,
        ensures
            r@.code == 3,
            r@.identifier == self@.identifier,
            r@.length == 0,
            r@.authenticator == zeros16(),
            r@.attributes.len() == 1,
            r@.attributes[0].typ == 18,
            r@.attributes[0].value == message.spec_bytes(),
            packet_wf(r@),
    {
        RadiusPacket::access_reject(self.identifier, message)
    }

    /// An Access-Challenge reply to this packet, echoing its identifier.
    pub fn reply_challenge(&self, message: &str) -> (r: RadiusPacket)
        requires
            message.spec_bytes().len() <= 253,
        ensures
            r@.code == 11,
            r@.identifier == self@.identifier,
            r@.length == 0,
            r@.authenticator == zeros16(),
            r@.attributes.len() == 1,
            r@.attributes[0].typ == 18,
            r@.attributes[0].value == message.spec_bytes(),
            packet_wf(r@),
    {
        RadiusPacket::access_challenge(self.identifier, message)
    }

    /// The text of the first User-Name attribute, if one is present and its
    /// bytes are valid UTF-8; anything else counts as "no username".
    pub fn username(&self) -> (r: Option<String>)
        ensures
            match first_user_name(self@.attributes) {
                None => r is None,
                Some(v) => if vstd::utf8::valid_utf8(v) {
                    r matches Some(s) && s@ == vstd::utf8::decode_utf8(v)
                } else {
                    r is None
                },
            },
    {
        let ghost full = attr_views(self.attributes@);
        proof {
            assert(full.skip(0) =~= full);
        }
        let mut idx: usize = 0;
        while idx < self.attributes.len()
            invariant
                idx <= self.attributes@.len(),
                full == attr_views(self.attributes@),
                first_user_name(full) == first_user_name(full.skip(idx as int)),
            decreases self.attributes@.len() - idx,
        {
            proof {
                assert(full.skip(idx as int)[0] == full[idx as int]);
            }
            if self.attributes[idx].typ == 1 {
                let a = &self.attributes[idx];
                assert(first_user_name(full) == Some(a.value@));
                match utf8_str(a.value.as_slice()) {
                    Some(s) => {
                        return Some(s.to_owned());
                    },
                    None => {
                        return None;
                    },
                }
            }
            idx = idx + 1;
            proof {
                assert(full.skip(idx - 1).skip(1) =~= full.skip(idx as int));
            }
        }
        assert(full.skip(idx as int).len() == 0);
        None
    }
}

} // verus!
