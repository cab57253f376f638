//! The address grammar: GPIB, VISA-socket and VXI-11 resource strings and
//! the plain host:port fallback, each normalized to a canonical lower-case
//! form that re-parses to the same address.

use vstd::prelude::*;
use vstd::string::*;

use crate::err::{ParseError, ParseErrSpec};
use crate::socket::{
    host_canon, lemma_host_canon_ascii, machine_hostname_bytes, resolve_host, socket_from_bytes,
    spec_parse_port, spec_resolve, spec_socket, HostSpec, NetworkAddr, SockSpec, Socket,
};
use crate::text::{
    all_digits, ascii_chars, ascii_to_string, bytes_eq, dec_str, dec_val, dec_value_capped,
    is_ascii_bytes, is_digits, lemma_ascii_app, lemma_dec_str, lemma_digits_ascii, normalize,
    spec_normalize, spec_split2, split2, subvec, COLON,
};

verus! {

/// Spec-level shape of an instrument address.
pub enum AddrSpec {
    Gpib { board: Seq<u8>, primary: u8 },
    VisaSocket { board: Seq<u8>, host: HostSpec, port: u16 },
    Vxi { board: Seq<u8>, host: HostSpec },
    Sock { host: HostSpec, port: u16 },
}

pub open spec fn gpib_lit() -> Seq<u8> {
    seq!['g' as u8, 'p' as u8, 'i' as u8, 'b' as u8]
}

pub open spec fn tcpip_lit() -> Seq<u8> {
    seq!['t' as u8, 'c' as u8, 'p' as u8, 'i' as u8, 'p' as u8]
}

pub open spec fn instr_lit() -> Seq<u8> {
    seq!['i' as u8, 'n' as u8, 's' as u8, 't' as u8, 'r' as u8]
}

pub open spec fn socket_lit() -> Seq<u8> {
    seq!['s' as u8, 'o' as u8, 'c' as u8, 'k' as u8, 'e' as u8, 't' as u8]
}

pub open spec fn sep2() -> Seq<u8> {
    seq![COLON, COLON]
}

/// The canonical lower-case text of an address.
pub open spec fn canon_bytes(a: AddrSpec) -> Seq<u8> {
    match a {
        AddrSpec::Gpib { board, primary } => {
            gpib_lit() + board + sep2() + dec_str(primary as nat) + sep2() + instr_lit()
        },
        AddrSpec::VisaSocket { board, host, port } => {
            tcpip_lit() + board + sep2() + host_canon(host) + sep2() + dec_str(port as nat)
                + sep2() + socket_lit()
        },
        AddrSpec::Vxi { board, host } => {
            tcpip_lit() + board + sep2() + host_canon(host) + sep2() + instr_lit()
        },
        AddrSpec::Sock { host, port } => host_canon(host) + seq![COLON] + dec_str(port as nat),
    }
}

/// A nonempty run of digits.
pub open spec fn digits1(s: Seq<u8>) -> bool {
    s.len() >= 1 && all_digits(s)
}

/// A head segment `gpib<digits*>` or `tcpip<digits*>`.
pub open spec fn head_matches(seg: Seq<u8>, lit: Seq<u8>) -> bool {
    seg.len() >= lit.len() && seg.take(lit.len() as int) == lit && all_digits(
        seg.skip(lit.len() as int),
    )
}

/// The board number: the digits after the prefix, or `0` when none stand.
pub open spec fn board_of(seg: Seq<u8>, lit: Seq<u8>) -> Seq<u8> {
    if seg.len() == lit.len() {
        seq![48u8]
    } else {
        seg.skip(lit.len() as int)
    }
}

/// `GPIB<board?>::<primary>(::<secondary>)?(::INSTR)?`, split on `::`.
pub open spec fn gpib_match(segs: Seq<Seq<u8>>) -> bool {
    segs.len() >= 1 && head_matches(segs[0], gpib_lit()) && ((segs.len() == 2 && digits1(segs[1]))
        || (segs.len() == 3 && digits1(segs[1]) && (segs[2] == instr_lit() || digits1(segs[2])))
        || (segs.len() == 4 && digits1(segs[1]) && digits1(segs[2]) && segs[3] == instr_lit()))
}

/// A matched GPIB form: the primary address must be at most 30; the
/// secondary address is recognized and discarded.
pub open spec fn spec_gpib(segs: Seq<Seq<u8>>) -> Result<AddrSpec, ParseErrSpec> {
    if dec_val(segs[1]) <= 30 {
        Ok(
            AddrSpec::Gpib {
                board: board_of(segs[0], gpib_lit()),
                primary: dec_val(segs[1]) as u8,
            },
        )
    } else {
        Err(ParseErrSpec::GpibPrimary { token: segs[1] })
    }
}

/// `TCPIP<board?>::<host>::<port>::SOCKET`, split on `::`.
pub open spec fn visa_socket_match(segs: Seq<Seq<u8>>) -> bool {
    segs.len() == 4 && head_matches(segs[0], tcpip_lit()) && segs[1].len() >= 1 && digits1(
        segs[2],
    ) && segs[3] == socket_lit()
}

pub open spec fn spec_visa_socket(segs: Seq<Seq<u8>>, m: Seq<u8>) -> Result<
    AddrSpec,
    ParseErrSpec,
> {
    match spec_parse_port(segs[2]) {
        None => Err(ParseErrSpec::Port { token: segs[2] }),
        Some(port) => match spec_resolve(segs[1], m) {
            Ok(host) => Ok(
                AddrSpec::VisaSocket { board: board_of(segs[0], tcpip_lit()), host, port },
            ),
            Err(e) => Err(e),
        },
    }
}

/// `TCPIP<board?>::<host>(::INSTR)?`, split on `::`.
pub open spec fn vxi_match(segs: Seq<Seq<u8>>) -> bool {
    segs.len() >= 1 && head_matches(segs[0], tcpip_lit()) && ((segs.len() == 2 && segs[1].len()
        >= 1) || (segs.len() == 3 && segs[1].len() >= 1 && segs[2] == instr_lit()))
}

pub open spec fn spec_vxi(segs: Seq<Seq<u8>>, m: Seq<u8>) -> Result<AddrSpec, ParseErrSpec> {
    match spec_resolve(segs[1], m) {
        Ok(host) => Ok(AddrSpec::Vxi { board: board_of(segs[0], tcpip_lit()), host }),
        Err(e) => Err(e),
    }
}

/// The whole grammar over a normalized address, first match wins: GPIB,
/// VISA-socket, VXI-11, then the plain socket fallback.
pub open spec fn parse_norm(t: Seq<u8>, m: Seq<u8>) -> Result<AddrSpec, ParseErrSpec> {
    let segs = spec_split2(t);
    if gpib_match(segs) {
        spec_gpib(segs)
    } else if visa_socket_match(segs) {
        spec_visa_socket(segs, m)
    } else if vxi_match(segs) {
        spec_vxi(segs, m)
    } else {
        match spec_socket(t, m) {
            Ok(ss) => Ok(AddrSpec::Sock { host: ss.host, port: ss.port }),
            Err(e) => Err(e),
        }
    }
}

/// Parsing a raw address string: whitespace removed and the text lowercased,
/// then the grammar applied. The machine name is lowercased where the
/// resolver compares against it.
pub open spec fn spec_parse(input: Seq<u8>, machine: Seq<u8>) -> Result<AddrSpec, ParseErrSpec> {
    parse_norm(spec_normalize(input), machine)
}

// ---------------------------------------------------------------------------
// The address value model
// ---------------------------------------------------------------------------
/// The family a VISA address belongs to.
#[derive(Copy, Clone, PartialEq, Debug, Eq, Hash, PartialOrd, Ord, Structural)]
pub enum VisaType {
    GPIB,
    Socket,
    USB,
    Hislip,
    Serial,
    VXI,
}

/// The structured payload of a VISA address. USB, serial, HiSLIP and
/// general VXI forms are reserved but unconstructed here.
#[derive(Clone, Debug, PartialEq, Eq, Hash, PartialOrd, Ord)]
pub enum VisaDetail {
    Gpib { primary: u8 },
    Socket { host: NetworkAddr, port: u16 },
    Vxi { host: NetworkAddr },
}

/// A VISA resource address: structured fields plus the canonical lower-case
/// string frozen at construction.
#[derive(Clone, Debug, PartialEq, Eq, Hash, PartialOrd, Ord)]
pub struct VisaAddress {
    pub address: String,
    pub board: Vec<u8>,
    pub detail: VisaDetail,
}

impl View for VisaAddress {
    type V = AddrSpec;

    open spec fn view(&self) -> AddrSpec {
        match self.detail {
            VisaDetail::Gpib { primary } => AddrSpec::Gpib { board: self.board@, primary },
            VisaDetail::Socket { host, port } => AddrSpec::VisaSocket {
                board: self.board@,
                host: host@,
                port,
            },
            VisaDetail::Vxi { host } => AddrSpec::Vxi { board: self.board@, host: host@ },
        }
    }
}

impl VisaAddress {
    /// The canonical string mirrors the structured fields; the fields obey
    /// what the grammar admits.
    pub open spec fn wf(&self) -> bool {
        &&& self.address@ == ascii_chars(canon_bytes(self@))
        &&& digits1(self.board@)
        &&& match self.detail {
            VisaDetail::Gpib { primary } => primary <= 30,
            VisaDetail::Socket { host, port } => host.wf(),
            VisaDetail::Vxi { host } => host.wf(),
        }
    }

    /// A structurally equal copy of the address.
    pub fn duplicate(&self) -> (r: VisaAddress)
        ensures
            r@ == self@,
            r.address@ == self.address@,
            self.wf() ==> r.wf(),
    {
        let board = subvec(&self.board, 0, self.board.len());
        proof {
            assert(board@ =~= self.board@);
        }
        let detail = match &self.detail {
            VisaDetail::Gpib { primary } => VisaDetail::Gpib { primary: *primary },
            VisaDetail::Socket { host, port } => VisaDetail::Socket {
                host: host.duplicate(),
                port: *port,
            },
            VisaDetail::Vxi { host } => VisaDetail::Vxi { host: host.duplicate() },
        };
        VisaAddress { address: self.address.clone(), board, detail }
    }

    /// Which VISA family this address names.
    pub fn get_type(&self) -> (r: VisaType)
        ensures
            r == self.spec_type(),
    {
        match &self.detail {
            VisaDetail::Gpib { .. } => VisaType::GPIB,
            VisaDetail::Socket { .. } => VisaType::Socket,
            VisaDetail::Vxi { .. } => VisaType::VXI,
        }
    }

    pub open spec fn spec_type(&self) -> VisaType {
        match self.detail {
            VisaDetail::Gpib { .. } => VisaType::GPIB,
            VisaDetail::Socket { .. } => VisaType::Socket,
            VisaDetail::Vxi { .. } => VisaType::VXI,
        }
    }

    /// For a GPIB address, the neighbouring primary address: one more for an
    /// even primary, one less for an odd one; `None` for other families.
    pub fn gpib_complement_address(&self) -> (r: Option<String>)
        requires
            self.wf(),
        ensures
            match r {
                Some(s) => (self@ matches AddrSpec::Gpib { board, primary } && s@ == ascii_chars(
                    gpib_lit() + board + sep2() + dec_str(
                        (if primary % 2 == 0 {
                            (primary + 1) as u8
                        } else {
                            (primary - 1) as u8
                        }) as nat,
                    ) + sep2() + instr_lit(),
                )),
                None => !(self@ matches AddrSpec::Gpib { .. }),
            },
    {
        match &self.detail {
            VisaDetail::Gpib { primary } => {
                let p = *primary;
                let q: u8 = if p % 2 == 0 {
                    p + 1
                } else {
                    p - 1
                };
                let mut out = gpib_lit_vec();
                let mut board = subvec(&self.board, 0, self.board.len());
                out.append(&mut board);
                out.push(COLON);
                out.push(COLON);
                crate::text::push_dec(&mut out, q as u32);
                out.push(COLON);
                out.push(COLON);
                let mut tail = instr_lit_vec();
                out.append(&mut tail);
                proof {
                    assert(out@ =~= gpib_lit() + self.board@ + sep2() + dec_str(q as nat) + sep2()
                        + instr_lit());
                    lemma_gpib_canon_ascii(self.board@, q);
                }
                Some(ascii_to_string(out))
            },
            _ => None,
        }
    }
}

/// The canonical GPIB text is plain ASCII.
proof fn lemma_gpib_canon_ascii(board: Seq<u8>, primary: u8)
    requires
        all_digits(board),
    ensures
        is_ascii_bytes(
            gpib_lit() + board + sep2() + dec_str(primary as nat) + sep2() + instr_lit(),
        ),
{
    lemma_lits_ascii();
    lemma_digits_ascii(board);
    lemma_dec_str(primary as nat);
    lemma_digits_ascii(dec_str(primary as nat));
    lemma_ascii_app(gpib_lit(), board);
    lemma_ascii_app(gpib_lit() + board, sep2());
    lemma_ascii_app(gpib_lit() + board + sep2(), dec_str(primary as nat));
    lemma_ascii_app(gpib_lit() + board + sep2() + dec_str(primary as nat), sep2());
    lemma_ascii_app(
        gpib_lit() + board + sep2() + dec_str(primary as nat) + sep2(),
        instr_lit(),
    );
}

proof fn lemma_lits_ascii()
    ensures
        is_ascii_bytes(gpib_lit()),
        is_ascii_bytes(tcpip_lit()),
        is_ascii_bytes(instr_lit()),
        is_ascii_bytes(socket_lit()),
        is_ascii_bytes(sep2()),
{
    assert forall|i: int| 0 <= i < gpib_lit().len() implies #[trigger] gpib_lit()[i] < 128 by {
        if i == 0 {
        } else if i == 1 {
        } else if i == 2 {
        } else {
        }
    }
    assert forall|i: int| 0 <= i < tcpip_lit().len() implies #[trigger] tcpip_lit()[i] < 128 by {
        if i == 0 {
        } else if i == 1 {
        } else if i == 2 {
        } else if i == 3 {
        } else {
        }
    }
    assert forall|i: int| 0 <= i < instr_lit().len() implies #[trigger] instr_lit()[i] < 128 by {
        if i == 0 {
        } else if i == 1 {
        } else if i == 2 {
        } else if i == 3 {
        } else {
        }
    }
    assert forall|i: int| 0 <= i < socket_lit().len() implies #[trigger] socket_lit()[i]
        < 128 by {
        if i == 0 {
        } else if i == 1 {
        } else if i == 2 {
        } else if i == 3 {
        } else if i == 4 {
        } else {
        }
    }
    assert forall|i: int| 0 <= i < sep2().len() implies #[trigger] sep2()[i] < 128 by {
        if i == 0 {
        } else {
        }
    }
}

fn gpib_lit_vec() -> (r: Vec<u8>)
    ensures
        r@ == gpib_lit(),
{
    let mut v: Vec<u8> = Vec::new();
    v.push(103);
    v.push(112);
    v.push(105);
    v.push(98);
    proof {
        assert(v@ =~= gpib_lit());
    }
    v
}

fn tcpip_lit_vec() -> (r: Vec<u8>)
    ensures
        r@ == tcpip_lit(),
{
    let mut v: Vec<u8> = Vec::new();
    v.push(116);
    v.push(99);
    v.push(112);
    v.push(105);
    v.push(112);
    proof {
        assert(v@ =~= tcpip_lit());
    }
    v
}

fn instr_lit_vec() -> (r: Vec<u8>)
    ensures
        r@ == instr_lit(),
{
    let mut v: Vec<u8> = Vec::new();
    v.push(105);
    v.push(110);
    v.push(115);
    v.push(116);
    v.push(114);
    proof {
        assert(v@ =~= instr_lit());
    }
    v
}

fn socket_lit_vec() -> (r: Vec<u8>)
    ensures
        r@ == socket_lit(),
{
    let mut v: Vec<u8> = Vec::new();
    v.push(115);
    v.push(111);
    v.push(99);
    v.push(107);
    v.push(101);
    v.push(116);
    proof {
        assert(v@ =~= socket_lit());
    }
    v
}

fn try_gpib(segs: &Vec<Vec<u8>>) -> (r: Option<Result<VisaAddress, ParseError>>)
    requires
        segs@.len() >= 1,
    ensures
        match r {
            None => !gpib_match(segs.deep_view()),
            Some(res) => gpib_match(segs.deep_view()) && (match res {
                Ok(a) => spec_gpib(segs.deep_view()) == Ok::<AddrSpec, ParseErrSpec>(a@) && a.wf(),
                Err(e) => spec_gpib(segs.deep_view()) == Err::<AddrSpec, ParseErrSpec>(e@),
            }),
        },
{
    let ghost dv = segs.deep_view();
    let g = gpib_lit_vec();
    let head = &segs[0];
    proof {
        assert(dv[0] == segs@[0]@);
    }
    if !starts_with_vec(head, &g) {
        return None;
    }
    let tail = subvec(head, 4, head.len());
    proof {
        assert(tail@ =~= dv[0].skip(4));
    }
    if !is_digits(&tail) {
        return None;
    }
    let n = segs.len();
    if n < 2 || n > 4 {
        return None;
    }
    let p1 = &segs[1];
    proof {
        assert(dv[1] == segs@[1]@);
    }
    if p1.len() < 1 || !is_digits(p1) {
        return None;
    }
    if n == 3 {
        let p2 = &segs[2];
        proof {
            assert(dv[2] == segs@[2]@);
        }
        let inst = bytes_eq(p2, &instr_lit_vec());
        let dig = p2.len() >= 1 && is_digits(p2);
        if !inst && !dig {
            return None;
        }
    } else if n == 4 {
        let p2 = &segs[2];
        let p3 = &segs[3];
        proof {
            assert(dv[2] == segs@[2]@);
            assert(dv[3] == segs@[3]@);
        }
        if p2.len() < 1 || !is_digits(p2) {
            return None;
        }
        if !bytes_eq(p3, &instr_lit_vec()) {
            return None;
        }
    }
    let cap = dec_value_capped(p1, 30);
    if cap > 30 {
        let tok = subvec(p1, 0, p1.len());
        proof {
            assert(tok@ =~= dv[1]);
        }
        return Some(Err(ParseError::GpibPrimary(tok)));
    }
    let primary = cap as u8;
    let board = if head.len() == 4 {
        let mut b: Vec<u8> = Vec::new();
        b.push(48);
        proof {
            assert(b@ =~= board_of(dv[0], gpib_lit()));
        }
        b
    } else {
        let b = subvec(head, 4, head.len());
        proof {
            assert(b@ =~= board_of(dv[0], gpib_lit()));
        }
        b
    };
    let mut cb = gpib_lit_vec();
    let mut bcopy = subvec(&board, 0, board.len());
    cb.append(&mut bcopy);
    cb.push(COLON);
    cb.push(COLON);
    crate::text::push_dec(&mut cb, primary as u32);
    cb.push(COLON);
    cb.push(COLON);
    let mut tailv = instr_lit_vec();
    cb.append(&mut tailv);
    proof {
        assert(cb@ =~= gpib_lit() + board@ + sep2() + dec_str(primary as nat) + sep2()
            + instr_lit());
        lemma_gpib_canon_ascii(board@, primary);
    }
    let address = ascii_to_string(cb);
    let va = VisaAddress { address, board, detail: VisaDetail::Gpib { primary } };
    Some(Ok(va))
}

fn try_visa_socket(segs: &Vec<Vec<u8>>, machine: &Vec<u8>) -> (r: Option<
    Result<VisaAddress, ParseError>,
>)
    requires
        segs@.len() >= 1,
    ensures
        match r {
            None => !visa_socket_match(segs.deep_view()),
            Some(res) => visa_socket_match(segs.deep_view()) && (match res {
                Ok(a) => spec_visa_socket(segs.deep_view(), machine@) == Ok::<
                    AddrSpec,
                    ParseErrSpec,
                >(a@) && a.wf(),
                Err(e) => spec_visa_socket(segs.deep_view(), machine@) == Err::<
                    AddrSpec,
                    ParseErrSpec,
                >(e@),
            }),
        },
{
    let ghost dv = segs.deep_view();
    if segs.len() != 4 {
        return None;
    }
    let t5 = tcpip_lit_vec();
    let head = &segs[0];
    proof {
        assert(dv[0] == segs@[0]@);
    }
    if !starts_with_vec(head, &t5) {
        return None;
    }
    let tail = subvec(head, 5, head.len());
    proof {
        assert(tail@ =~= dv[0].skip(5));
    }
    if !is_digits(&tail) {
        return None;
    }
    let host_tok = &segs[1];
    proof {
        assert(dv[1] == segs@[1]@);
    }
    if host_tok.len() == 0 {
        return None;
    }
    let ptok = &segs[2];
    proof {
        assert(dv[2] == segs@[2]@);
    }
    if ptok.len() < 1 || !is_digits(ptok) {
        return None;
    }
    proof {
        assert(dv[3] == segs@[3]@);
    }
    if !bytes_eq(&segs[3], &socket_lit_vec()) {
        return None;
    }
    match crate::socket::parse_port(ptok) {
        None => {
            let tok = subvec(ptok, 0, ptok.len());
            proof {
                assert(tok@ =~= dv[2]);
            }
            Some(Err(ParseError::Port(tok)))
        },
        Some(port) => {
            match resolve_host(host_tok, machine) {
                Err(e) => Some(Err(e)),
                Ok(host) => {
                    let board = if head.len() == 5 {
                        let mut b: Vec<u8> = Vec::new();
                        b.push(48);
                        proof {
                            assert(b@ =~= board_of(dv[0], tcpip_lit()));
                        }
                        b
                    } else {
                        let b = subvec(head, 5, head.len());
                        proof {
                            assert(b@ =~= board_of(dv[0], tcpip_lit()));
                        }
                        b
                    };
                    let mut cb = tcpip_lit_vec();
                    let mut bcopy = subvec(&board, 0, board.len());
                    cb.append(&mut bcopy);
                    cb.push(COLON);
                    cb.push(COLON);
                    let mut hostv = host.text_bytes();
                    cb.append(&mut hostv);
                    cb.push(COLON);
                    cb.push(COLON);
                    crate::text::push_dec(&mut cb, port as u32);
                    cb.push(COLON);
                    cb.push(COLON);
                    let mut tailv = socket_lit_vec();
                    cb.append(&mut tailv);
                    proof {
                        assert(cb@ =~= tcpip_lit() + board@ + sep2() + host_canon(host@) + sep2()
                            + dec_str(port as nat) + sep2() + socket_lit());
                        lemma_visa_canon_ascii(board@, host@, port);
                    }
                    let address = ascii_to_string(cb);
                    let va = VisaAddress {
                        address,
                        board,
                        detail: VisaDetail::Socket { host, port },
                    };
                    Some(Ok(va))
                },
            }
        },
    }
}

fn try_vxi(segs: &Vec<Vec<u8>>, machine: &Vec<u8>) -> (r: Option<Result<VisaAddress, ParseError>>)
    requires
        segs@.len() >= 1,
    ensures
        match r {
            None => !vxi_match(segs.deep_view()),
            Some(res) => vxi_match(segs.deep_view()) && (match res {
                Ok(a) => spec_vxi(segs.deep_view(), machine@) == Ok::<AddrSpec, ParseErrSpec>(a@)
                    && a.wf(),
                Err(e) => spec_vxi(segs.deep_view(), machine@) == Err::<AddrSpec, ParseErrSpec>(
                    e@,
                ),
            }),
        },
{
    let ghost dv = segs.deep_view();
    let n = segs.len();
    if n < 2 || n > 3 {
        return None;
    }
    let t5 = tcpip_lit_vec();
    let head = &segs[0];
    proof {
        assert(dv[0] == segs@[0]@);
    }
    if !starts_with_vec(head, &t5) {
        return None;
    }
    let tail = subvec(head, 5, head.len());
    proof {
        assert(tail@ =~= dv[0].skip(5));
    }
    if !is_digits(&tail) {
        return None;
    }
    let host_tok = &segs[1];
    proof {
        assert(dv[1] == segs@[1]@);
    }
    if host_tok.len() == 0 {
        return None;
    }
    if n == 3 {
        proof {
            assert(dv[2] == segs@[2]@);
        }
        if !bytes_eq(&segs[2], &instr_lit_vec()) {
            return None;
        }
    }
    match resolve_host(host_tok, machine) {
        Err(e) => Some(Err(e)),
        Ok(host) => {
            let board = if head.len() == 5 {
                let mut b: Vec<u8> = Vec::new();
                b.push(48);
                proof {
                    assert(b@ =~= board_of(dv[0], tcpip_lit()));
                }
                b
            } else {
                let b = subvec(head, 5, head.len());
                proof {
                    assert(b@ =~= board_of(dv[0], tcpip_lit()));
                }
                b
            };
            let mut cb = tcpip_lit_vec();
            let mut bcopy = subvec(&board, 0, board.len());
            cb.append(&mut bcopy);
            cb.push(COLON);
            cb.push(COLON);
            let mut hostv = host.text_bytes();
            cb.append(&mut hostv);
            cb.push(COLON);
            cb.push(COLON);
            let mut tailv = instr_lit_vec();
            cb.append(&mut tailv);
            proof {
                assert(cb@ =~= tcpip_lit() + board@ + sep2() + host_canon(host@) + sep2()
                    + instr_lit());
                lemma_vxi_canon_ascii(board@, host@);
            }
            let address = ascii_to_string(cb);
            let va = VisaAddress { address, board, detail: VisaDetail::Vxi { host } };
            Some(Ok(va))
        },
    }
}

proof fn lemma_visa_canon_ascii(board: Seq<u8>, host: HostSpec, port: u16)
    requires
        all_digits(board),
        (host matches HostSpec::Raw { name } ==> crate::socket::hostname_ok(name)),
    ensures
        is_ascii_bytes(
            tcpip_lit() + board + sep2() + host_canon(host) + sep2() + dec_str(port as nat)
                + sep2() + socket_lit(),
        ),
{
    lemma_lits_ascii();
    lemma_digits_ascii(board);
    lemma_host_canon_ascii(host);
    lemma_dec_str(port as nat);
    lemma_digits_ascii(dec_str(port as nat));
    let a1 = tcpip_lit() + board;
    lemma_ascii_app(tcpip_lit(), board);
    let a2 = a1 + sep2();
    lemma_ascii_app(a1, sep2());
    let a3 = a2 + host_canon(host);
    lemma_ascii_app(a2, host_canon(host));
    let a4 = a3 + sep2();
    lemma_ascii_app(a3, sep2());
    let a5 = a4 + dec_str(port as nat);
    lemma_ascii_app(a4, dec_str(port as nat));
    let a6 = a5 + sep2();
    lemma_ascii_app(a5, sep2());
    lemma_ascii_app(a6, socket_lit());
}

proof fn lemma_vxi_canon_ascii(board: Seq<u8>, host: HostSpec)
    requires
        all_digits(board),
        (host matches HostSpec::Raw { name } ==> crate::socket::hostname_ok(name)),
    ensures
        is_ascii_bytes(tcpip_lit() + board + sep2() + host_canon(host) + sep2() + instr_lit()),
{
    lemma_lits_ascii();
    lemma_digits_ascii(board);
    lemma_host_canon_ascii(host);
    let a1 = tcpip_lit() + board;
    lemma_ascii_app(tcpip_lit(), board);
    let a2 = a1 + sep2();
    lemma_ascii_app(a1, sep2());
    let a3 = a2 + host_canon(host);
    lemma_ascii_app(a2, host_canon(host));
    let a4 = a3 + sep2();
    lemma_ascii_app(a3, sep2());
    lemma_ascii_app(a4, instr_lit());
}

// ---------------------------------------------------------------------------
// The instrument address
// ---------------------------------------------------------------------------
/// A parsed instrument address: a VISA resource or a plain socket endpoint.
#[derive(Clone, Debug, PartialEq, Eq, Hash, PartialOrd, Ord)]
#[non_exhaustive]
pub enum InstAddr {
    Visa(VisaAddress),
    Socket(Socket),
}

impl View for InstAddr {
    type V = AddrSpec;

    open spec fn view(&self) -> AddrSpec {
        match self {
            InstAddr::Visa(va) => va@,
            InstAddr::Socket(s) => AddrSpec::Sock { host: s@.host, port: s@.port },
        }
    }
}

impl InstAddr {
    pub open spec fn wf(&self) -> bool {
        match self {
            InstAddr::Visa(va) => va.wf(),
            InstAddr::Socket(s) => s.wf(),
        }
    }

    /// Parse any instrument address against an explicit machine name.
    pub fn from_bytes(addr: &Vec<u8>, machine: &Vec<u8>) -> (r: Result<InstAddr, ParseError>)
        ensures
            match r {
                Ok(a) => spec_parse(addr@, machine@) == Ok::<AddrSpec, ParseErrSpec>(a@)
                    && a.wf(),
                Err(e) => spec_parse(addr@, machine@) == Err::<AddrSpec, ParseErrSpec>(e@),
            },
    {
        let t = normalize(addr);
        let segs = split2(&t);
        match try_gpib(&segs) {
            Some(res) => {
                return match res {
                    Ok(va) => Ok(InstAddr::Visa(va)),
                    Err(e) => Err(e),
                };
            },
            None => {},
        }
        match try_visa_socket(&segs, machine) {
            Some(res) => {
                return match res {
                    Ok(va) => Ok(InstAddr::Visa(va)),
                    Err(e) => Err(e),
                };
            },
            None => {},
        }
        match try_vxi(&segs, machine) {
            Some(res) => {
                return match res {
                    Ok(va) => Ok(InstAddr::Visa(va)),
                    Err(e) => Err(e),
                };
            },
            None => {},
        }
        match socket_from_bytes(&t, machine) {
            Ok(s) => Ok(InstAddr::Socket(s)),
            Err(e) => Err(e),
        }
    }

    /// Parse any instrument address, resolving loopback aliases against the
    /// executing machine's own name.
    pub fn new(address: &str) -> (r: Result<InstAddr, ParseError>)
        ensures
            match r {
                Ok(a) => a.wf() && (exists|m: Seq<u8>|
                    spec_parse(address.spec_bytes(), m) == Ok::<AddrSpec, ParseErrSpec>(a@)),
                Err(e) => exists|m: Seq<u8>|
                    spec_parse(address.spec_bytes(), m) == Err::<AddrSpec, ParseErrSpec>(e@),
            },
    {
        let bytes = address.as_bytes_vec();
        let machine = machine_hostname_bytes();
        let r = InstAddr::from_bytes(&bytes, &machine);
        proof {
            assert(match r {
                Ok(a) => spec_parse(address.spec_bytes(), machine@) == Ok::<
                    AddrSpec,
                    ParseErrSpec,
                >(a@),
                Err(e) => spec_parse(address.spec_bytes(), machine@) == Err::<
                    AddrSpec,
                    ParseErrSpec,
                >(e@),
            });
        }
        r
    }

    /// What connecting must do for this address: bind the native driver for
    /// a VISA resource, or dial TCP for a socket endpoint.
    pub fn connect_plan(self) -> (r: ConnectPlan)
        ensures
            match r {
                ConnectPlan::Native { address } => self matches InstAddr::Visa(va) && address
                    == va,
                ConnectPlan::Dial { endpoint } => self matches InstAddr::Socket(s) && endpoint
                    == s,
            },
    {
        match self {
            InstAddr::Visa(va) => ConnectPlan::Native { address: va },
            InstAddr::Socket(s) => ConnectPlan::Dial { endpoint: s },
        }
    }

    /// The canonical lower-case address string.
    pub fn address(&self) -> (r: String)
        requires
            self.wf(),
        ensures
            r@ == ascii_chars(canon_bytes(self@)),
    {
        match self {
            InstAddr::Visa(va) => va.address.clone(),
            InstAddr::Socket(s) => {
                let b = s.text_bytes();
                proof {
                    lemma_host_canon_ascii(s@.host);
                    lemma_dec_str(s@.port as nat);
                    lemma_digits_ascii(dec_str(s@.port as nat));
                    lemma_ascii_app(host_canon(s@.host), seq![COLON]);
                    lemma_ascii_app(host_canon(s@.host) + seq![COLON], dec_str(s@.port as nat));
                }
                ascii_to_string(b)
            },
        }
    }
}

/// The transport an address binds to on connect.
pub enum ConnectPlan {
    /// Obtain the shared driver binding and open the canonical address.
    Native { address: VisaAddress },
    /// Dial TCP with a bounded connect timeout.
    Dial { endpoint: Socket },
}

impl core::str::FromStr for InstAddr {
    type Err = String;

    fn from_str(s: &str) -> Result<InstAddr, String> {
        match InstAddr::new(s) {
            Ok(a) => Ok(a),
            Err(e) => Err(e.message()),
        }
    }
}

/// Parse a GPIB resource string alone.
pub fn parse_gpib(address: &str) -> (r: Result<InstAddr, ParseError>)
    ensures
        ({
            let segs = spec_split2(spec_normalize(address.spec_bytes()));
            match r {
                Ok(a) => gpib_match(segs) && spec_gpib(segs) == Ok::<AddrSpec, ParseErrSpec>(a@)
                    && a.wf(),
                Err(e) => (gpib_match(segs) && spec_gpib(segs) == Err::<AddrSpec, ParseErrSpec>(
                    e@,
                )) || (!gpib_match(segs) && e@ == ParseErrSpec::Format),
            }
        }),
{
    let bytes = address.as_bytes_vec();
    let t = normalize(&bytes);
    let segs = split2(&t);
    match try_gpib(&segs) {
        Some(res) => match res {
            Ok(va) => Ok(InstAddr::Visa(va)),
            Err(e) => Err(e),
        },
        None => Err(ParseError::Format),
    }
}

/// Parse a VISA-socket resource string alone.
pub fn parse_visa_socket(address: &str) -> (r: Result<InstAddr, ParseError>)
    ensures
        ({
            let segs = spec_split2(spec_normalize(address.spec_bytes()));
            match r {
                Ok(a) => visa_socket_match(segs) && a.wf() && (exists|m: Seq<u8>|
                    spec_visa_socket(segs, m) == Ok::<AddrSpec, ParseErrSpec>(a@)),
                Err(e) => (visa_socket_match(segs) && (exists|m: Seq<u8>|
                    spec_visa_socket(segs, m) == Err::<AddrSpec, ParseErrSpec>(e@))) || (
                !visa_socket_match(segs) && e@ == ParseErrSpec::Format),
            }
        }),
{
    let bytes = address.as_bytes_vec();
    let machine = machine_hostname_bytes();
    let t = normalize(&bytes);
    let segs = split2(&t);
    match try_visa_socket(&segs, &machine) {
        Some(res) => {
            proof {
                assert(match res {
                    Ok(a) => spec_visa_socket(
                        spec_split2(spec_normalize(address.spec_bytes())),
                        machine@,
                    ) == Ok::<AddrSpec, ParseErrSpec>(a@),
                    Err(e) => spec_visa_socket(
                        spec_split2(spec_normalize(address.spec_bytes())),
                        machine@,
                    ) == Err::<AddrSpec, ParseErrSpec>(e@),
                });
            }
            match res {
                Ok(va) => Ok(InstAddr::Visa(va)),
                Err(e) => Err(e),
            }
        },
        None => Err(ParseError::Format),
    }
}

/// Parse a VXI-11 resource string alone.
pub fn parse_visa_vxi11(address: &str) -> (r: Result<InstAddr, ParseError>)
    ensures
        ({
            let segs = spec_split2(spec_normalize(address.spec_bytes()));
            match r {
                Ok(a) => vxi_match(segs) && a.wf() && (exists|m: Seq<u8>|
                    spec_vxi(segs, m) == Ok::<AddrSpec, ParseErrSpec>(a@)),
                Err(e) => (vxi_match(segs) && (exists|m: Seq<u8>|
                    spec_vxi(segs, m) == Err::<AddrSpec, ParseErrSpec>(e@))) || (!vxi_match(segs)
                    && e@ == ParseErrSpec::Format),
            }
        }),
{
    let bytes = address.as_bytes_vec();
    let machine = machine_hostname_bytes();
    let t = normalize(&bytes);
    let segs = split2(&t);
    match try_vxi(&segs, &machine) {
        Some(res) => {
            proof {
                assert(match res {
                    Ok(a) => spec_vxi(
                        spec_split2(spec_normalize(address.spec_bytes())),
                        machine@,
                    ) == Ok::<AddrSpec, ParseErrSpec>(a@),
                    Err(e) => spec_vxi(
                        spec_split2(spec_normalize(address.spec_bytes())),
                        machine@,
                    ) == Err::<AddrSpec, ParseErrSpec>(e@),
                });
            }
            match res {
                Ok(va) => Ok(InstAddr::Visa(va)),
                Err(e) => Err(e),
            }
        },
        None => Err(ParseError::Format),
    }
}

/// Parse a plain socket address alone.
pub fn parse_socket(address: &str) -> (r: Result<InstAddr, ParseError>)
    ensures
        match r {
            Ok(a) => a.wf() && (exists|m: Seq<u8>|
                (#[trigger] spec_socket(address.spec_bytes(), m)) matches Ok(ss) && a@
                    == AddrSpec::Sock { host: ss.host, port: ss.port }),
            Err(e) => exists|m: Seq<u8>|
                spec_socket(address.spec_bytes(), m) == Err::<SockSpec, ParseErrSpec>(e@),
        },
{
    match Socket::new(address) {
        Ok(s) => Ok(InstAddr::Socket(s)),
        Err(e) => Err(e),
    }
}

fn starts_with_vec(v: &Vec<u8>, pre: &Vec<u8>) -> (r: bool)
    ensures
        r == (v@.len() >= pre@.len() && v@.take(pre@.len() as int) == pre@),
{
    if v.len() < pre.len() {
        return false;
    }
    let mut i: usize = 0;
    while i < pre.len()
        invariant
            i <= pre@.len() <= v@.len(),
            forall|k: int| 0 <= k < i ==> v@[k] == pre@[k],
        decreases pre.len() - i,
    {
        if v[i] != pre[i] {
            proof {
                assert(v@.take(pre@.len() as int)[i as int] != pre@[i as int]);
            }
            return false;
        }
        i = i + 1;
    }
    proof {
        assert(v@.take(pre@.len() as int) =~= pre@);
    }
    true
}

} // verus!
