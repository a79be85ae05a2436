//! The wire-level message schema.
use vstd::prelude::*;
use crate::codec::{
    chars_of, dec, escape, lemma_dec_injective, lemma_dec_plain, lemma_escape_prefix,
    lemma_normal_escape, lemma_normal_plain, lit_at, lit_at_spec, normal, normalize, parse_port,
    parse_str, push_decimal, push_escaped,
};

verus! {

/// One protocol message exchanged between an agent and the broker.
#[derive(Debug, Clone, PartialEq, Eq)]
pub enum Frame {
    Register { id: String },
    Open { conn_id: String, target: String, port: u16 },
    Data { conn_id: String, data: String },
    Close { conn_id: String },
}

/// The mathematical value of a frame: its strings as character sequences.
pub enum FrameView {
    Register { id: Seq<char> },
    Open { conn_id: Seq<char>, target: Seq<char>, port: u16 },
    Data { conn_id: Seq<char>, data: Seq<char> },
    Close { conn_id: Seq<char> },
}

impl View for Frame {
    type V = FrameView;

    open spec fn view(&self) -> FrameView {
        match self {
            Frame::Register { id } => FrameView::Register { id: id@ },
            Frame::Open { conn_id, target, port } => FrameView::Open {
                conn_id: conn_id@,
                target: target@,
                port: *port,
            },
            Frame::Data { conn_id, data } => FrameView::Data { conn_id: conn_id@, data: data@ },
            Frame::Close { conn_id } => FrameView::Close { conn_id: conn_id@ },
        }
    }
}


/// Why inbound text is not a frame.
#[derive(Debug, PartialEq, Eq, Structural)]
pub enum DecodeError {
    /// The text is not the encoding of any frame: a broken record or an
    /// unknown discriminator.
    Malformed,
}

/// The start of each record holds the discriminator and the first key; this
/// is the start of a Register record.
pub open spec fn register_head() -> Seq<char> {
    "{\"type\":\"Register\",\"id\":\""@
}

/// The start of an Open record.
pub open spec fn open_head() -> Seq<char> {
    "{\"type\":\"Open\",\"conn_id\":\""@
}

/// The start of a Data record.
pub open spec fn data_head() -> Seq<char> {
    "{\"type\":\"Data\",\"conn_id\":\""@
}

/// The start of a Close record.
pub open spec fn close_head() -> Seq<char> {
    "{\"type\":\"Close\",\"conn_id\":\""@
}

/// The key before an Open record's target.
pub open spec fn target_key() -> Seq<char> {
    ",\"target\":\""@
}

/// The key before an Open record's port.
pub open spec fn port_key() -> Seq<char> {
    ",\"port\":"@
}

/// The key before a Data record's payload.
pub open spec fn data_key() -> Seq<char> {
    ",\"data\":\""@
}

/// The head of a frame's record.
pub open spec fn head(f: FrameView) -> Seq<char> {
    match f {
        FrameView::Register { .. } => register_head(),
        FrameView::Open { .. } => open_head(),
        FrameView::Data { .. } => data_head(),
        FrameView::Close { .. } => close_head(),
    }
}

/// What follows the head of a frame's record.
pub open spec fn body(f: FrameView) -> Seq<char> {
    match f {
        FrameView::Register { id } => escape(id) + seq!['"'] + seq!['}'],
        FrameView::Open { conn_id, target, port } => escape(conn_id) + seq!['"'] + (target_key()
            + escape(target) + seq!['"'] + (port_key() + dec(port as nat) + seq!['}'])),
        FrameView::Data { conn_id, data } => escape(conn_id) + seq!['"'] + (data_key() + escape(
            data,
        ) + seq!['"'] + seq!['}']),
        FrameView::Close { conn_id } => escape(conn_id) + seq!['"'] + seq!['}'],
    }
}

/// The wire text of a frame: a compact JSON object whose `type` field names
/// the variant, followed by the variant's fields in declaration order.
pub open spec fn encode_spec(f: FrameView) -> Seq<char> {
    head(f) + body(f)
}

/// The heads differ at their tenth character, where the variant name begins.
proof fn lemma_heads()
    ensures
        register_head().len() > 10 && register_head()[9] == 'R',
        open_head().len() > 10 && open_head()[9] == 'O',
        data_head().len() > 10 && data_head()[9] == 'D',
        close_head().len() > 10 && close_head()[9] == 'C',
{
    reveal_strlit("{\"type\":\"Register\",\"id\":\"");
    reveal_strlit("{\"type\":\"Open\",\"conn_id\":\"");
    reveal_strlit("{\"type\":\"Data\",\"conn_id\":\"");
    reveal_strlit("{\"type\":\"Close\",\"conn_id\":\"");
}

/// `a + b` follows `pos` in `v`: `a` stands at `pos` and `b` follows it.
proof fn lemma_split_tail(v: Seq<char>, pos: int, a: Seq<char>, b: Seq<char>)
    requires
        0 <= pos <= v.len(),
        v.subrange(pos, v.len() as int) == a + b,
    ensures
        lit_at_spec(v, pos, a),
        v.subrange(pos + a.len(), v.len() as int) == b,
{
    let t = v.subrange(pos, v.len() as int);
    assert(t.len() == a.len() + b.len());
    assert(v.subrange(pos, pos + a.len()) =~= t.subrange(0, a.len() as int));
    assert(t.subrange(0, a.len() as int) =~= a);
    assert(v.subrange(pos + a.len(), v.len() as int) =~= t.subrange(a.len() as int, t.len() as int));
    assert(t.subrange(a.len() as int, t.len() as int) =~= b);
}

/// A record that ends with its closing brace at `p`.
proof fn lemma_brace(v: Seq<char>, p: int)
    requires
        0 <= p <= v.len(),
        v.subrange(p, v.len() as int) == seq!['}'],
    ensures
        p + 1 == v.len(),
        v[p] == '}',
{
    assert(seq!['}'].len() == 1);
    assert(v.subrange(p, v.len() as int).len() == 1);
    assert(v.subrange(p, v.len() as int)[0] == v[p]);
}

/// The text of a frame starts with its own head and with no other.
proof fn lemma_head_of(f: FrameView, v: Seq<char>)
    requires
        encode_spec(f) == v,
    ensures
        lit_at_spec(v, 0, head(f)),
        v.subrange(head(f).len() as int, v.len() as int) == body(f),
        lit_at_spec(v, 0, register_head()) ==> f is Register,
        lit_at_spec(v, 0, open_head()) ==> f is Open,
        lit_at_spec(v, 0, data_head()) ==> f is Data,
        lit_at_spec(v, 0, close_head()) ==> f is Close,
{
    assert(v.subrange(0, v.len() as int) =~= v);
    lemma_split_tail(v, 0, head(f), body(f));
    lemma_heads();
    assert(v[9] == head(f)[9]) by {
        assert(v.subrange(0, head(f).len() as int)[9] == v[9]);
    }
    if lit_at_spec(v, 0, register_head()) {
        assert(v.subrange(0, register_head().len() as int)[9] == v[9]);
    }
    if lit_at_spec(v, 0, open_head()) {
        assert(v.subrange(0, open_head().len() as int)[9] == v[9]);
    }
    if lit_at_spec(v, 0, data_head()) {
        assert(v.subrange(0, data_head().len() as int)[9] == v[9]);
    }
    if lit_at_spec(v, 0, close_head()) {
        assert(v.subrange(0, close_head().len() as int)[9] == v[9]);
    }
}

/// Removing an equal prefix from two equal sequences leaves equal rests.
proof fn lemma_drop_prefix(k: Seq<char>, a: Seq<char>, b: Seq<char>)
    requires
        k + a == k + b,
    ensures
        a == b,
{
    assert(a =~= (k + a).subrange(k.len() as int, (k + a).len() as int));
    assert(b =~= (k + b).subrange(k.len() as int, (k + b).len() as int));
}

/// Distinct frames have distinct texts.
pub proof fn lemma_encode_injective(f: FrameView, g: FrameView)
    requires
        encode_spec(f) == encode_spec(g),
    ensures
        f == g,
{
    let v = encode_spec(f);
    lemma_head_of(f, v);
    lemma_head_of(g, v);
    assert(body(f) == body(g));
    match (f, g) {
        (FrameView::Register { id: a }, FrameView::Register { id: b }) => {
            lemma_escape_prefix(a, b, seq!['}'], seq!['}']);
        },
        (FrameView::Close { conn_id: a }, FrameView::Close { conn_id: b }) => {
            lemma_escape_prefix(a, b, seq!['}'], seq!['}']);
        },
        (FrameView::Data { conn_id: a, data: d }, FrameView::Data { conn_id: b, data: e }) => {
            let x1 = data_key() + escape(d) + seq!['"'] + seq!['}'];
            let x2 = data_key() + escape(e) + seq!['"'] + seq!['}'];
            lemma_escape_prefix(a, b, x1, x2);
            assert(x1 =~= data_key() + (escape(d) + seq!['"'] + seq!['}']));
            assert(x2 =~= data_key() + (escape(e) + seq!['"'] + seq!['}']));
            lemma_drop_prefix(data_key(), escape(d) + seq!['"'] + seq!['}'], escape(e) + seq!['"'] + seq!['}']);
            lemma_escape_prefix(d, e, seq!['}'], seq!['}']);
        },
        (
            FrameView::Open { conn_id: a, target: t, port: n },
            FrameView::Open { conn_id: b, target: u, port: m },
        ) => {
            let y1 = port_key() + dec(n as nat) + seq!['}'];
            let y2 = port_key() + dec(m as nat) + seq!['}'];
            let x1 = target_key() + escape(t) + seq!['"'] + y1;
            let x2 = target_key() + escape(u) + seq!['"'] + y2;
            lemma_escape_prefix(a, b, x1, x2);
            assert(x1 =~= target_key() + (escape(t) + seq!['"'] + y1));
            assert(x2 =~= target_key() + (escape(u) + seq!['"'] + y2));
            lemma_drop_prefix(target_key(), escape(t) + seq!['"'] + y1, escape(u) + seq!['"'] + y2);
            lemma_escape_prefix(t, u, y1, y2);
            assert(y1 =~= port_key() + (dec(n as nat) + seq!['}']));
            assert(y2 =~= port_key() + (dec(m as nat) + seq!['}']));
            lemma_drop_prefix(port_key(), dec(n as nat) + seq!['}'], dec(m as nat) + seq!['}']);
            assert(dec(n as nat) =~= (dec(n as nat) + seq!['}']).drop_last());
            assert(dec(m as nat) =~= (dec(m as nat) + seq!['}']).drop_last());
            lemma_dec_injective(n as nat, m as nat);
        },
        _ => {},
    }
}

/// The frame whose text is `s`, if any.
pub open spec fn decode_spec(s: Seq<char>) -> Option<FrameView> {
    if exists|f: FrameView| encode_spec(f) == s {
        Some(choose|f: FrameView| encode_spec(f) == s)
    } else {
        None
    }
}

/// No literal piece of a record holds a backslash.
proof fn lemma_pieces_plain()
    ensures
        forall|i: int| 0 <= i < register_head().len() ==> register_head()[i] != '\\',
        forall|i: int| 0 <= i < open_head().len() ==> open_head()[i] != '\\',
        forall|i: int| 0 <= i < data_head().len() ==> data_head()[i] != '\\',
        forall|i: int| 0 <= i < close_head().len() ==> close_head()[i] != '\\',
        forall|i: int| 0 <= i < target_key().len() ==> target_key()[i] != '\\',
        forall|i: int| 0 <= i < port_key().len() ==> port_key()[i] != '\\',
        forall|i: int| 0 <= i < data_key().len() ==> data_key()[i] != '\\',
{
    reveal_strlit("{\"type\":\"Register\",\"id\":\"");
    reveal_strlit("{\"type\":\"Open\",\"conn_id\":\"");
    reveal_strlit("{\"type\":\"Data\",\"conn_id\":\"");
    reveal_strlit("{\"type\":\"Close\",\"conn_id\":\"");
    reveal_strlit(",\"target\":\"");
    reveal_strlit(",\"port\":");
    reveal_strlit(",\"data\":\"");
}

/// A closing quote and brace are kept by the rewriting of escapes.
proof fn lemma_normal_close()
    ensures
        normal(seq!['"'] + seq!['}']) == seq!['"'] + seq!['}'],
        normal(seq!['}']) == seq!['}'],
{
    lemma_normal_plain(seq!['"'] + seq!['}'], Seq::empty());
    lemma_normal_plain(seq!['}'], Seq::empty());
    assert(seq!['"'] + seq!['}'] + Seq::<char>::empty() =~= seq!['"'] + seq!['}']);
    assert(seq!['}'] + Seq::<char>::empty() =~= seq!['}']);
    assert(normal(Seq::<char>::empty()) =~= Seq::<char>::empty());
}

/// The text of a frame is already in the form with canonical escapes.
pub proof fn lemma_normal_encode(f: FrameView)
    ensures
        normal(encode_spec(f)) == encode_spec(f),
{
    lemma_pieces_plain();
    lemma_normal_close();
    let q = seq!['"'];
    let z = seq!['}'];
    match f {
        FrameView::Register { id } => {
            lemma_normal_escape(id, q + z);
            assert(body(f) =~= escape(id) + (q + z));
        },
        FrameView::Close { conn_id } => {
            lemma_normal_escape(conn_id, q + z);
            assert(body(f) =~= escape(conn_id) + (q + z));
        },
        FrameView::Data { conn_id, data } => {
            let tail = q + z;
            lemma_normal_escape(data, tail);
            lemma_normal_plain(data_key(), escape(data) + tail);
            let x = data_key() + (escape(data) + tail);
            lemma_normal_plain(q, x);
            lemma_normal_escape(conn_id, q + x);
            assert(body(f) =~= escape(conn_id) + (q + x));
        },
        FrameView::Open { conn_id, target, port } => {
            let d = dec(port as nat);
            lemma_dec_plain(port as nat);
            lemma_normal_plain(d, z);
            lemma_normal_plain(port_key(), d + z);
            let y = port_key() + (d + z);
            lemma_normal_plain(q, y);
            lemma_normal_escape(target, q + y);
            lemma_normal_plain(target_key(), escape(target) + (q + y));
            let x = target_key() + (escape(target) + (q + y));
            lemma_normal_plain(q, x);
            lemma_normal_escape(conn_id, q + x);
            assert(body(f) =~= escape(conn_id) + (q + x));
        },
    }
    lemma_normal_plain(head(f), body(f));
}

/// Decoding the text of any frame gives that frame back.
pub proof fn lemma_round_trip(f: FrameView)
    ensures
        normal(encode_spec(f)) == encode_spec(f),
        decode_spec(normal(encode_spec(f))) == Some(f),
{
    lemma_normal_encode(f);
    let s = encode_spec(f);
    assert(exists|g: FrameView| encode_spec(g) == s);
    let g = choose|g: FrameView| encode_spec(g) == s;
    lemma_encode_injective(f, g);
}

/// Whether `v` ends with the closing brace at `p`.
fn closes_at(v: &Vec<char>, p: usize) -> (r: bool)
    ensures
        r == (p + 1 == v.len() && v@[p as int] == '}'),
        r ==> v@.subrange(p as int, v.len() as int) == seq!['}'],
{
    if p < v.len() && p + 1 == v.len() && v[p] == '}' {
        assert(v@.subrange(p as int, v.len() as int) =~= seq!['}']);
        true
    } else {
        false
    }
}

/// Reads the fields of a Register record that follow its head at `pos`.
fn read_register(v: &Vec<char>, pos: usize) -> (r: Option<Frame>)
    requires
        pos <= v.len(),
    ensures
        r matches Some(g) ==> g@ is Register && v@.subrange(pos as int, v.len() as int) == body(g@),
        forall|id: Seq<char>|
            v@.subrange(pos as int, v.len() as int) == #[trigger] body(FrameView::Register { id })
                ==> (r matches Some(g) && g@ == FrameView::Register { id }),
{
    proof {
        assert forall|id: Seq<char>|
            v@.subrange(pos as int, v.len() as int) == #[trigger] body(FrameView::Register { id })
            implies v@.subrange(pos as int, v.len() as int) == escape(id) + seq!['"'] + seq!['}']
            && pos + escape(id).len() + 2 == v.len() && v@[pos + escape(id).len() + 1] == '}' by {
            lemma_split_tail(v@, pos as int, escape(id) + seq!['"'], seq!['}']);
            lemma_brace(v@, pos + escape(id).len() + 1);
        }
    }
    match parse_str(v, pos) {
        Some((id, p)) => {
            if closes_at(v, p) {
                assert(v@.subrange(pos as int, v.len() as int) =~= v@.subrange(pos as int, p as int)
                    + v@.subrange(p as int, v.len() as int));
                Some(Frame::Register { id })
            } else {
                None
            }
        },
        None => None,
    }
}

/// Reads the fields of a Close record that follow its head at `pos`.
fn read_close(v: &Vec<char>, pos: usize) -> (r: Option<Frame>)
    requires
        pos <= v.len(),
    ensures
        r matches Some(g) ==> g@ is Close && v@.subrange(pos as int, v.len() as int) == body(g@),
        forall|conn_id: Seq<char>|
            v@.subrange(pos as int, v.len() as int) == #[trigger] body(FrameView::Close { conn_id })
                ==> (r matches Some(g) && g@ == FrameView::Close { conn_id }),
{
    proof {
        assert forall|c: Seq<char>|
            v@.subrange(pos as int, v.len() as int) == #[trigger] body(FrameView::Close { conn_id: c })
            implies v@.subrange(pos as int, v.len() as int) == escape(c) + seq!['"'] + seq!['}']
            && pos + escape(c).len() + 2 == v.len() && v@[pos + escape(c).len() + 1] == '}' by {
            lemma_split_tail(v@, pos as int, escape(c) + seq!['"'], seq!['}']);
            lemma_brace(v@, pos + escape(c).len() + 1);
        }
    }
    match parse_str(v, pos) {
        Some((conn_id, p)) => {
            if closes_at(v, p) {
                assert(v@.subrange(pos as int, v.len() as int) =~= v@.subrange(pos as int, p as int)
                    + v@.subrange(p as int, v.len() as int));
                Some(Frame::Close { conn_id })
            } else {
                None
            }
        },
        None => None,
    }
}

/// Reads the fields of a Data record that follow its head at `pos`.
fn read_data(v: &Vec<char>, pos: usize) -> (r: Option<Frame>)
    requires
        pos <= v.len(),
    ensures
        r matches Some(g) ==> g@ is Data && v@.subrange(pos as int, v.len() as int) == body(g@),
        forall|conn_id: Seq<char>, data: Seq<char>|
            v@.subrange(pos as int, v.len() as int) == #[trigger] body(FrameView::Data { conn_id, data })
                ==> (r matches Some(g) && g@ == FrameView::Data { conn_id, data }),
{
    let kd = ",\"data\":\"".unicode_len();
    proof {
        assert forall|c: Seq<char>, d: Seq<char>|
            v@.subrange(pos as int, v.len() as int) == #[trigger] body(FrameView::Data { conn_id: c, data: d })
            implies v@.subrange(pos as int, v.len() as int) == escape(c) + seq!['"'] + (data_key() + escape(d) + seq!['"'] + seq!['}'])
            && lit_at_spec(v@, pos + escape(c).len() + 1, data_key())
            && v@.subrange(pos + escape(c).len() + 1 + data_key().len(), v.len() as int) == escape(d) + seq!['"'] + seq!['}']
            && pos + escape(c).len() + 1 + data_key().len() + escape(d).len() + 2 == v.len()
            && v@[pos + escape(c).len() + 1 + data_key().len() + escape(d).len() + 1] == '}' by {
            let x = data_key() + escape(d) + seq!['"'] + seq!['}'];
            lemma_split_tail(v@, pos as int, escape(c) + seq!['"'], x);
            let p1 = pos + escape(c).len() + 1;
            assert(x =~= data_key() + (escape(d) + seq!['"'] + seq!['}']));
            lemma_split_tail(v@, p1, data_key(), escape(d) + seq!['"'] + seq!['}']);
            lemma_split_tail(v@, p1 + data_key().len(), escape(d) + seq!['"'], seq!['}']);
            lemma_brace(v@, p1 + data_key().len() + escape(d).len() + 1);
        }
    }
    let (conn_id, p1) = match parse_str(v, pos) {
        Some(t) => t,
        None => return None,
    };
    if !lit_at(v, p1, ",\"data\":\"") {
        return None;
    }
    let p2 = p1 + kd;
    let (data, p3) = match parse_str(v, p2) {
        Some(t) => t,
        None => return None,
    };
    if closes_at(v, p3) {
        assert(v@.subrange(pos as int, v.len() as int) =~= v@.subrange(pos as int, p1 as int)
            + v@.subrange(p1 as int, p2 as int) + v@.subrange(p2 as int, p3 as int) + v@.subrange(p3 as int, v.len() as int));
        Some(Frame::Data { conn_id, data })
    } else {
        None
    }
}

/// Reads the fields of an Open record that follow its head at `pos`.
fn read_open(v: &Vec<char>, pos: usize) -> (r: Option<Frame>)
    requires
        pos <= v.len(),
    ensures
        r matches Some(g) ==> g@ is Open && v@.subrange(pos as int, v.len() as int) == body(g@),
        forall|conn_id: Seq<char>, target: Seq<char>, port: u16|
            v@.subrange(pos as int, v.len() as int) == #[trigger] body(FrameView::Open { conn_id, target, port })
                ==> (r matches Some(g) && g@ == FrameView::Open { conn_id, target, port }),
{
    let kt = ",\"target\":\"".unicode_len();
    let kp = ",\"port\":".unicode_len();
    proof {
        assert forall|c: Seq<char>, t: Seq<char>, n: u16|
            v@.subrange(pos as int, v.len() as int) == #[trigger] body(FrameView::Open { conn_id: c, target: t, port: n })
            implies ({
                let p1 = pos + escape(c).len() + 1;
                let p2 = p1 + target_key().len();
                let p3 = p2 + escape(t).len() + 1;
                let p4 = p3 + port_key().len();
                &&& v@.subrange(pos as int, v.len() as int) == escape(c) + seq!['"'] + (target_key() + escape(t) + seq!['"'] + (port_key() + dec(n as nat) + seq!['}']))
                &&& lit_at_spec(v@, p1, target_key())
                &&& v@.subrange(p2, v.len() as int) == escape(t) + seq!['"'] + (port_key() + dec(n as nat) + seq!['}'])
                &&& lit_at_spec(v@, p3, port_key())
                &&& v@.subrange(p4, v.len() as int) == dec(n as nat) + seq!['}']
                &&& p4 + dec(n as nat).len() + 1 == v.len()
                &&& v@[p4 + dec(n as nat).len()] == '}'
            }) by {
            let y = port_key() + dec(n as nat) + seq!['}'];
            let x = target_key() + escape(t) + seq!['"'] + y;
            lemma_split_tail(v@, pos as int, escape(c) + seq!['"'], x);
            let p1 = pos + escape(c).len() + 1;
            assert(x =~= target_key() + (escape(t) + seq!['"'] + y));
            lemma_split_tail(v@, p1, target_key(), escape(t) + seq!['"'] + y);
            let p2 = p1 + target_key().len();
            lemma_split_tail(v@, p2, escape(t) + seq!['"'], y);
            let p3 = p2 + escape(t).len() + 1;
            assert(y =~= port_key() + (dec(n as nat) + seq!['}']));
            lemma_split_tail(v@, p3, port_key(), dec(n as nat) + seq!['}']);
            let p4 = p3 + port_key().len();
            lemma_split_tail(v@, p4, dec(n as nat), seq!['}']);
            lemma_brace(v@, p4 + dec(n as nat).len());
        }
    }
    let (conn_id, p1) = match parse_str(v, pos) {
        Some(t) => t,
        None => return None,
    };
    if !lit_at(v, p1, ",\"target\":\"") {
        return None;
    }
    let p2 = p1 + kt;
    let (target, p3) = match parse_str(v, p2) {
        Some(t) => t,
        None => return None,
    };
    if !lit_at(v, p3, ",\"port\":") {
        return None;
    }
    let p4 = p3 + kp;
    let (port, p5) = match parse_port(v, p4) {
        Some(t) => t,
        None => return None,
    };
    if closes_at(v, p5) {
        assert(v@.subrange(pos as int, v.len() as int) =~= v@.subrange(pos as int, p1 as int)
            + v@.subrange(p1 as int, p2 as int) + v@.subrange(p2 as int, p3 as int) + v@.subrange(p3 as int, p4 as int)
            + v@.subrange(p4 as int, p5 as int) + v@.subrange(p5 as int, v.len() as int));
        Some(Frame::Open { conn_id, target, port })
    } else {
        None
    }
}

/// Reads a frame from its wire text. The accepted texts are those that
/// `encode` produces, also with escapes written in another JSON form
/// (`\n`, `\t`, `\/`, upper-case `\u00XX`, ...): each is read as the frame
/// whose text it is once its escapes are rewritten.
#[verifier::rlimit(40)]
pub fn decode(text: &str) -> (r: Result<Frame, DecodeError>)
    ensures
        r matches Ok(g) ==> encode_spec(g@) == normal(text@),
        forall|f: FrameView| #[trigger] encode_spec(f) == normal(text@) ==> (r matches Ok(g) && g@ == f),
        match decode_spec(normal(text@)) {
            Some(f) => r matches Ok(g) && g@ == f,
            None => r == Err::<Frame, DecodeError>(DecodeError::Malformed),
        },
{
    let raw = chars_of(text);
    let v = normalize(&raw);
    let rh = "{\"type\":\"Register\",\"id\":\"";
    let oh = "{\"type\":\"Open\",\"conn_id\":\"";
    let dh = "{\"type\":\"Data\",\"conn_id\":\"";
    let ch = "{\"type\":\"Close\",\"conn_id\":\"";
    let read = if lit_at(&v, 0, rh) {
        read_register(&v, rh.unicode_len())
    } else if lit_at(&v, 0, oh) {
        read_open(&v, oh.unicode_len())
    } else if lit_at(&v, 0, dh) {
        read_data(&v, dh.unicode_len())
    } else if lit_at(&v, 0, ch) {
        read_close(&v, ch.unicode_len())
    } else {
        None
    };
    proof {
        assert forall|f: FrameView| #[trigger] encode_spec(f) == normal(text@) implies (read matches Some(g) && g@ == f) by {
            lemma_head_of(f, v@);
            assert(body(f) == v@.subrange(head(f).len() as int, v@.len() as int));
        }
        if read is Some {
            let g = read.unwrap()@;
            assert(v@ =~= v@.subrange(0, head(g).len() as int) + v@.subrange(head(g).len() as int, v@.len() as int));
        }
    }
    proof {
        if exists|f: FrameView| encode_spec(f) == normal(text@) {
            let f = choose|f: FrameView| encode_spec(f) == normal(text@);
            assert(encode_spec(f) == normal(text@));
            assert(read matches Some(g) && g@ == f);
            assert(decode_spec(normal(text@)) == Some(f));
        } else {
            assert(decode_spec(normal(text@)) is None);
            if read is Some {
                assert(encode_spec(read.unwrap()@) == normal(text@));
            }
        }
    }
    match read {
        Some(g) => Ok(g),
        None => Err(DecodeError::Malformed),
    }
}

/// The wire text of a frame.
pub fn encode(f: &Frame) -> (r: String)
    ensures
        r@ == encode_spec(f@),
{
    match f {
        Frame::Register { id } => {
            let mut out = String::from_str("{\"type\":\"Register\",\"id\":\"");
            push_escaped(&mut out, id.as_str());
            out.push('"');
            out.push('}');
            assert(out@ =~= encode_spec(f@));
            out
        },
        Frame::Open { conn_id, target, port } => {
            let mut out = String::from_str("{\"type\":\"Open\",\"conn_id\":\"");
            push_escaped(&mut out, conn_id.as_str());
            out.push('"');
            out.append(",\"target\":\"");
            push_escaped(&mut out, target.as_str());
            out.push('"');
            out.append(",\"port\":");
            push_decimal(&mut out, *port);
            out.push('}');
            assert(out@ =~= encode_spec(f@));
            out
        },
        Frame::Data { conn_id, data } => {
            let mut out = String::from_str("{\"type\":\"Data\",\"conn_id\":\"");
            push_escaped(&mut out, conn_id.as_str());
            out.push('"');
            out.append(",\"data\":\"");
            push_escaped(&mut out, data.as_str());
            out.push('"');
            out.push('}');
            assert(out@ =~= encode_spec(f@));
            out
        },
        Frame::Close { conn_id } => {
            let mut out = String::from_str("{\"type\":\"Close\",\"conn_id\":\"");
            push_escaped(&mut out, conn_id.as_str());
            out.push('"');
            out.push('}');
            assert(out@ =~= encode_spec(f@));
            out
        },
    }
}

} // verus!
