//! The network address resolver: classifies a host token as an IPv4 literal
//! (accepting zero-padded octets), a loopback alias, an IPv6 literal, or an
//! unresolved hostname, and carries socket endpoints of host and port.

use vstd::prelude::*;
use vstd::string::*;

use crate::err::{ParseError, ParseErrSpec};
use crate::text::{
    all_digits, all_hex_digits, ascii_chars, ascii_to_string, bytes_eq, dec_str, dec_val,
    dec_value_capped, find2, find_sep2, has_sep2, hex_str, hex_val, hex_value4, is_ascii_bytes,
    is_digit, is_digits, is_hex_digits_vec, is_lower, lemma_dec_str, lemma_find2_bounds,
    lemma_hex_str, lemma_hex_val_bound, lower_seq, lower_vec, push_dec, push_hex, spec_join1,
    spec_split1, spec_trim, split1, subvec, trim, COLON, DOT,
};

verus! {

/// An IPv4 address as four octets.
#[derive(Clone, Copy, Debug, PartialEq, Eq, Hash, PartialOrd, Ord, Structural)]
pub struct Ipv4Address {
    pub o1: u8,
    pub o2: u8,
    pub o3: u8,
    pub o4: u8,
}

/// An IPv6 address as eight 16-bit groups.
#[derive(Clone, Copy, Debug, PartialEq, Eq, Hash, PartialOrd, Ord, Structural)]
pub struct Ipv6Address {
    pub g1: u16,
    pub g2: u16,
    pub g3: u16,
    pub g4: u16,
    pub g5: u16,
    pub g6: u16,
    pub g7: u16,
    pub g8: u16,
}

impl Ipv6Address {
    pub open spec fn groups(&self) -> Seq<u16> {
        seq![self.g1, self.g2, self.g3, self.g4, self.g5, self.g6, self.g7, self.g8]
    }
}

/// Spec-level shape of a resolved host.
pub enum HostSpec {
    V4 { o1: u8, o2: u8, o3: u8, o4: u8 },
    V6 { gs: Seq<u16> },
    Raw { name: Seq<u8> },
}

/// A classified host: a numeric literal, or a hostname whose DNS lookup is
/// deferred to connect time.
#[derive(Clone, Debug, PartialEq, Eq, Hash, PartialOrd, Ord)]
pub enum NetworkAddr {
    /// An IPv4 address.
    V4(Ipv4Address),
    /// An IPv6 address.
    V6(Ipv6Address),
    /// Raw host/computer name, kept lower-case.
    RAW(Vec<u8>),
}

impl View for NetworkAddr {
    type V = HostSpec;

    open spec fn view(&self) -> HostSpec {
        match self {
            NetworkAddr::V4(ip) => HostSpec::V4 { o1: ip.o1, o2: ip.o2, o3: ip.o3, o4: ip.o4 },
            NetworkAddr::V6(ip) => HostSpec::V6 { gs: ip.groups() },
            NetworkAddr::RAW(name) => HostSpec::Raw { name: name@ },
        }
    }
}

// ---------------------------------------------------------------------------
// The token grammar
// ---------------------------------------------------------------------------
/// An octet as `u8::from_str` accepts it: optional `+`, then digits, value
/// at most 255; leading zeros are allowed.
pub open spec fn is_u8_token(s: Seq<u8>) -> bool {
    let d = if s.len() >= 1 && s[0] == 43 {
        s.drop_first()
    } else {
        s
    };
    d.len() >= 1 && all_digits(d) && dec_val(d) <= 255
}

/// Leading zeros removed; an all-zero octet becomes `0`.
pub open spec fn trim_zeros(s: Seq<u8>) -> Seq<u8>
    decreases s.len(),
{
    if s.len() > 0 && s[0] == 48 {
        trim_zeros(s.drop_first())
    } else {
        s
    }
}

pub open spec fn clean_octet(s: Seq<u8>) -> Seq<u8> {
    if trim_zeros(s).len() == 0 {
        seq![48u8]
    } else {
        trim_zeros(s)
    }
}

pub open spec fn localhost_bytes() -> Seq<u8> {
    seq![
        'l' as u8,
        'o' as u8,
        'c' as u8,
        'a' as u8,
        'l' as u8,
        'h' as u8,
        'o' as u8,
        's' as u8,
        't' as u8,
    ]
}

pub open spec fn colon_colon_one() -> Seq<u8> {
    seq![':' as u8, ':' as u8, '1' as u8]
}

/// A character a hostname label may hold (after lowercasing).
pub open spec fn is_host_char(b: u8) -> bool {
    is_lower(b) || is_digit(b) || b == 45
}

/// A label: nonempty, letters, digits and hyphens, no hyphen at either end.
pub open spec fn label_ok(s: Seq<u8>) -> bool {
    s.len() >= 1 && (forall|i: int| 0 <= i < s.len() ==> is_host_char(#[trigger] s[i])) && s[0]
        != 45 && s.last() != 45
}

/// Dot-separated labels, each well-formed.
pub open spec fn hostname_ok(t: Seq<u8>) -> bool {
    let ls = spec_split1(t, DOT);
    forall|i: int| 0 <= i < ls.len() ==> label_ok(#[trigger] ls[i])
}

/// A 16-bit IPv6 group: one to four hex digits.
pub open spec fn h16_ok(s: Seq<u8>) -> bool {
    1 <= s.len() <= 4 && all_hex_digits(s)
}

pub open spec fn all_h16(ps: Seq<Seq<u8>>) -> bool {
    forall|i: int| 0 <= i < ps.len() ==> h16_ok(#[trigger] ps[i])
}

pub open spec fn h16_values(ps: Seq<Seq<u8>>) -> Seq<u16> {
    ps.map_values(|p: Seq<u8>| hex_val(p) as u16)
}

pub open spec fn zero_groups(n: nat) -> Seq<u16> {
    Seq::new(n, |i: int| 0u16)
}

/// An IPv6 literal: eight colon-separated groups, or two runs of groups
/// around one `::` standing for the missing zero groups.
pub open spec fn spec_parse_ipv6(t: Seq<u8>) -> Option<Seq<u16>> {
    let j = find2(t, 0);
    if j < 0 {
        let parts = spec_split1(t, COLON);
        if parts.len() == 8 && all_h16(parts) {
            Some(h16_values(parts))
        } else {
            None
        }
    } else {
        let left = t.take(j);
        let right = t.skip(j + 2);
        if has_sep2(right) {
            None
        } else {
            let lp = if left.len() == 0 {
                Seq::<Seq<u8>>::empty()
            } else {
                spec_split1(left, COLON)
            };
            let rp = if right.len() == 0 {
                Seq::<Seq<u8>>::empty()
            } else {
                spec_split1(right, COLON)
            };
            if all_h16(lp) && all_h16(rp) && lp.len() + rp.len() <= 7 {
                Some(
                    h16_values(lp) + zero_groups((8 - lp.len() - rp.len()) as nat) + h16_values(
                        rp,
                    ),
                )
            } else {
                None
            }
        }
    }
}

// ---------------------------------------------------------------------------
// The resolver
// ---------------------------------------------------------------------------
/// Resolution of an already trimmed and lowercased token against the (also
/// lowercased) machine name: relaxed IPv4 first, then the loopback aliases,
/// then an IPv6 literal, then a hostname kept for deferred DNS lookup.
pub open spec fn resolve_norm(t: Seq<u8>, m: Seq<u8>) -> Result<HostSpec, ParseErrSpec> {
    let segs = spec_split1(t, DOT);
    if segs.len() == 4 && (forall|i: int| 0 <= i < 4 ==> is_u8_token(#[trigger] segs[i])) {
        if forall|i: int| 0 <= i < 4 ==> all_digits(#[trigger] segs[i]) {
            Ok(
                HostSpec::V4 {
                    o1: dec_val(segs[0]) as u8,
                    o2: dec_val(segs[1]) as u8,
                    o3: dec_val(segs[2]) as u8,
                    o4: dec_val(segs[3]) as u8,
                },
            )
        } else {
            Err(
                ParseErrSpec::Ip {
                    token: spec_join1(segs.map_values(|s: Seq<u8>| clean_octet(s)), DOT),
                },
            )
        }
    } else if t == localhost_bytes() || t == colon_colon_one() || t == m {
        Ok(HostSpec::V4 { o1: 127, o2: 0, o3: 0, o4: 1 })
    } else {
        match spec_parse_ipv6(t) {
            Some(gs) => Ok(HostSpec::V6 { gs }),
            None => {
                if hostname_ok(t) {
                    Ok(HostSpec::Raw { name: t })
                } else {
                    Err(ParseErrSpec::Host { token: t })
                }
            },
        }
    }
}

/// Resolution of a raw token: trimmed and lowercased, then classified.
pub open spec fn spec_resolve(token: Seq<u8>, machine: Seq<u8>) -> Result<HostSpec, ParseErrSpec> {
    resolve_norm(lower_seq(spec_trim(token)), lower_seq(machine))
}

// ---------------------------------------------------------------------------
// Executable classification
// ---------------------------------------------------------------------------
fn check_u8_token(v: &Vec<u8>) -> (r: bool)
    ensures
        r == is_u8_token(v@),
{
    let d = if v.len() >= 1 && v[0] == 43 {
        let s = subvec(v, 1, v.len());
        proof {
            assert(s@ =~= v@.drop_first());
        }
        s
    } else {
        let s = subvec(v, 0, v.len());
        proof {
            assert(s@ =~= v@);
        }
        s
    };
    if d.len() == 0 {
        return false;
    }
    if !is_digits(&d) {
        return false;
    }
    let val = dec_value_capped(&d, 255);
    val <= 255
}

pub(crate) fn parse_port(v: &Vec<u8>) -> (r: Option<u16>)
    ensures
        r == spec_parse_port(v@),
{
    let d = if v.len() >= 1 && v[0] == 43 {
        let s = subvec(v, 1, v.len());
        proof {
            assert(s@ =~= v@.drop_first());
        }
        s
    } else {
        let s = subvec(v, 0, v.len());
        proof {
            assert(s@ =~= v@);
        }
        s
    };
    if d.len() == 0 {
        return None;
    }
    if !is_digits(&d) {
        return None;
    }
    let val = dec_value_capped(&d, 65535);
    if val <= 65535 {
        Some(val as u16)
    } else {
        None
    }
}

/// A port as `u16::from_str` accepts it: optional `+`, then digits, value
/// at most 65535.
pub open spec fn spec_parse_port(s: Seq<u8>) -> Option<u16> {
    let d = if s.len() >= 1 && s[0] == 43 {
        s.drop_first()
    } else {
        s
    };
    if d.len() >= 1 && all_digits(d) && dec_val(d) <= 65535 {
        Some(dec_val(d) as u16)
    } else {
        None
    }
}

fn clean_octet_vec(v: &Vec<u8>) -> (r: Vec<u8>)
    ensures
        r@ == clean_octet(v@),
{
    let mut i: usize = 0;
    proof {
        assert(v@.skip(0) =~= v@);
    }
    while i < v.len() && v[i] == 48
        invariant
            i <= v@.len(),
            trim_zeros(v@) == trim_zeros(v@.skip(i as int)),
        decreases v.len() - i,
    {
        proof {
            assert(v@.skip(i as int).drop_first() =~= v@.skip(i + 1));
        }
        i = i + 1;
    }
    proof {
        assert(trim_zeros(v@.skip(i as int)) =~= v@.skip(i as int));
    }
    if i == v.len() {
        let mut out: Vec<u8> = Vec::new();
        out.push(48);
        proof {
            assert(v@.skip(i as int) =~= Seq::<u8>::empty());
            assert(out@ =~= clean_octet(v@));
        }
        out
    } else {
        let out = subvec(v, i, v.len());
        proof {
            assert(out@ =~= v@.skip(i as int));
        }
        out
    }
}

fn localhost_vec() -> (r: Vec<u8>)
    ensures
        r@ == localhost_bytes(),
{
    let mut v: Vec<u8> = Vec::new();
    v.push(108);
    v.push(111);
    v.push(99);
    v.push(97);
    v.push(108);
    v.push(104);
    v.push(111);
    v.push(115);
    v.push(116);
    proof {
        assert(v@ =~= localhost_bytes());
    }
    v
}

fn colon_colon_one_vec() -> (r: Vec<u8>)
    ensures
        r@ == colon_colon_one(),
{
    let mut v: Vec<u8> = Vec::new();
    v.push(58);
    v.push(58);
    v.push(49);
    proof {
        assert(v@ =~= colon_colon_one());
    }
    v
}

fn check_hostname(t: &Vec<u8>) -> (r: bool)
    ensures
        r == hostname_ok(t@),
{
    let labels = split1(t, DOT);
    let mut i: usize = 0;
    while i < labels.len()
        invariant
            i <= labels@.len(),
            labels.deep_view() == spec_split1(t@, DOT),
            forall|k: int| 0 <= k < i ==> label_ok(#[trigger] labels.deep_view()[k]),
        decreases labels.len() - i,
    {
        let lab = &labels[i];
        proof {
            assert(labels.deep_view()[i as int] == labels@[i as int]@);
        }
        if !check_label(lab) {
            proof {
                assert(!label_ok(spec_split1(t@, DOT)[i as int]));
            }
            return false;
        }
        i = i + 1;
    }
    true
}

fn check_label(s: &Vec<u8>) -> (r: bool)
    ensures
        r == label_ok(s@),
{
    if s.len() == 0 {
        return false;
    }
    if s[0] == 45 || s[s.len() - 1] == 45 {
        return false;
    }
    let mut i: usize = 0;
    while i < s.len()
        invariant
            i <= s@.len(),
            forall|k: int| 0 <= k < i ==> is_host_char(#[trigger] s@[k]),
        decreases s.len() - i,
    {
        let b = s[i];
        if !((97 <= b && b <= 122) || (48 <= b && b <= 57) || b == 45) {
            return false;
        }
        i = i + 1;
    }
    true
}

fn groups_of(parts: &Vec<Vec<u8>>) -> (r: Option<Vec<u16>>)
    ensures
        match r {
            Some(vs) => all_h16(parts.deep_view()) && vs@ == h16_values(parts.deep_view()),
            None => !all_h16(parts.deep_view()),
        },
{
    let mut vs: Vec<u16> = Vec::new();
    let mut i: usize = 0;
    while i < parts.len()
        invariant
            i <= parts@.len(),
            vs@.len() == i,
            forall|k: int| 0 <= k < i ==> h16_ok(#[trigger] parts.deep_view()[k]),
            forall|k: int|
                0 <= k < i ==> vs@[k] == hex_val(#[trigger] parts.deep_view()[k]) as u16,
        decreases parts.len() - i,
    {
        let p = &parts[i];
        proof {
            assert(parts.deep_view()[i as int] == parts@[i as int]@);
        }
        if p.len() < 1 || p.len() > 4 {
            proof {
                assert(!h16_ok(parts.deep_view()[i as int]));
            }
            return None;
        }
        if !is_hex_digits_vec(p) {
            proof {
                assert(!h16_ok(parts.deep_view()[i as int]));
            }
            return None;
        }
        let v = hex_value4(p);
        proof {
            lemma_hex_val_bound(p@);
        }
        vs.push(v);
        i = i + 1;
    }
    proof {
        assert(vs@ =~= h16_values(parts.deep_view()));
    }
    Some(vs)
}

/// An IPv6 literal parser over lowercased bytes.
#[verifier::rlimit(100)]
pub fn parse_ipv6(t: &Vec<u8>) -> (r: Option<Ipv6Address>)
    ensures
        match r {
            Some(a) => spec_parse_ipv6(t@) == Some(a.groups()),
            None => spec_parse_ipv6(t@) == None::<Seq<u16>>,
        },
{
    match find_sep2(t) {
        None => {
            let parts = split1(t, COLON);
            if parts.len() != 8 {
                return None;
            }
            match groups_of(&parts) {
                None => None,
                Some(vs) => {
                    let a = Ipv6Address {
                        g1: vs[0],
                        g2: vs[1],
                        g3: vs[2],
                        g4: vs[3],
                        g5: vs[4],
                        g6: vs[5],
                        g7: vs[6],
                        g8: vs[7],
                    };
                    proof {
                        assert(a.groups() =~= h16_values(parts.deep_view()));
                    }
                    Some(a)
                },
            }
        },
        Some(j) => {
            proof {
                lemma_find2_bounds(t@, 0);
            }
            let n = t.len();
            let left = subvec(t, 0, j);
            let right = subvec(t, j + 2, n);
            match find_sep2(&right) {
                Some(j2) => {
                    proof {
                        lemma_find2_bounds(right@, 0);
                        assert(has_sep2(t@.skip(j + 2 as int)));
                    }
                    None
                },
                None => {
                    proof {
                        crate::text::lemma_find2_complete(right@, 0);
                        assert(!has_sep2(t@.skip(j + 2 as int)));
                    }
                    let lp: Vec<Vec<u8>> = if left.len() == 0 {
                        let e: Vec<Vec<u8>> = Vec::new();
                        proof {
                            assert(e.deep_view() =~= Seq::<Seq<u8>>::empty());
                        }
                        e
                    } else {
                        split1(&left, COLON)
                    };
                    let rp: Vec<Vec<u8>> = if right.len() == 0 {
                        let e: Vec<Vec<u8>> = Vec::new();
                        proof {
                            assert(e.deep_view() =~= Seq::<Seq<u8>>::empty());
                        }
                        e
                    } else {
                        split1(&right, COLON)
                    };
                    match groups_of(&lp) {
                        None => None,
                        Some(lvs) => {
                            match groups_of(&rp) {
                                None => None,
                                Some(rvs) => {
                                    if lvs.len() > 7 || rvs.len() > 7 || lvs.len() + rvs.len()
                                        > 7 {
                                        return None;
                                    }
                                    let mut gs: Vec<u16> = Vec::new();
                                    let mut i: usize = 0;
                                    while i < lvs.len()
                                        invariant
                                            i <= lvs@.len(),
                                            gs@ == lvs@.take(i as int),
                                        decreases lvs.len() - i,
                                    {
                                        gs.push(lvs[i]);
                                        proof {
                                            assert(lvs@.take(i + 1) =~= lvs@.take(
                                                i as int,
                                            ).push(lvs@[i as int]));
                                        }
                                        i = i + 1;
                                    }
                                    proof {
                                        assert(lvs@.take(lvs@.len() as int) =~= lvs@);
                                    }
                                    let fill = 8 - lvs.len() - rvs.len();
                                    let mut z: usize = 0;
                                    while z < fill
                                        invariant
                                            z <= fill,
                                            fill == 8 - lvs@.len() - rvs@.len(),
                                            lvs@.len() + rvs@.len() <= 7,
                                            gs@ == lvs@ + zero_groups(z as nat),
                                        decreases fill - z,
                                    {
                                        gs.push(0);
                                        proof {
                                            assert(lvs@ + zero_groups((z + 1) as nat) =~= (lvs@
                                                + zero_groups(z as nat)).push(0u16));
                                        }
                                        z = z + 1;
                                    }
                                    let mut k: usize = 0;
                                    while k < rvs.len()
                                        invariant
                                            k <= rvs@.len(),
                                            fill == 8 - lvs@.len() - rvs@.len(),
                                            gs@ == lvs@ + zero_groups(fill as nat) + rvs@.take(
                                                k as int,
                                            ),
                                        decreases rvs.len() - k,
                                    {
                                        gs.push(rvs[k]);
                                        proof {
                                            assert(lvs@ + zero_groups(fill as nat) + rvs@.take(
                                                k + 1,
                                            ) =~= (lvs@ + zero_groups(fill as nat) + rvs@.take(
                                                k as int,
                                            )).push(rvs@[k as int]));
                                        }
                                        k = k + 1;
                                    }
                                    proof {
                                        assert(rvs@.take(rvs@.len() as int) =~= rvs@);
                                        assert(gs@.len() == 8);
                                    }
                                    let a = Ipv6Address {
                                        g1: gs[0],
                                        g2: gs[1],
                                        g3: gs[2],
                                        g4: gs[3],
                                        g5: gs[4],
                                        g6: gs[5],
                                        g7: gs[6],
                                        g8: gs[7],
                                    };
                                    proof {
                                        assert(a.groups() =~= gs@);
                                    }
                                    Some(a)
                                },
                            }
                        },
                    }
                },
            }
        },
    }
}

fn all_u8_tokens(segs: &Vec<Vec<u8>>) -> (r: bool)
    ensures
        r == (forall|i: int|
            0 <= i < segs.deep_view().len() ==> is_u8_token(#[trigger] segs.deep_view()[i])),
{
    let mut i: usize = 0;
    while i < segs.len()
        invariant
            i <= segs@.len(),
            forall|k: int| 0 <= k < i ==> is_u8_token(#[trigger] segs.deep_view()[k]),
        decreases segs.len() - i,
    {
        let s = &segs[i];
        proof {
            assert(segs.deep_view()[i as int] == segs@[i as int]@);
        }
        if !check_u8_token(s) {
            proof {
                assert(!is_u8_token(segs.deep_view()[i as int]));
            }
            return false;
        }
        i = i + 1;
    }
    true
}

fn all_digit_segs(segs: &Vec<Vec<u8>>) -> (r: bool)
    ensures
        r == (forall|i: int|
            0 <= i < segs.deep_view().len() ==> all_digits(#[trigger] segs.deep_view()[i])),
{
    let mut i: usize = 0;
    while i < segs.len()
        invariant
            i <= segs@.len(),
            forall|k: int| 0 <= k < i ==> all_digits(#[trigger] segs.deep_view()[k]),
        decreases segs.len() - i,
    {
        let s = &segs[i];
        proof {
            assert(segs.deep_view()[i as int] == segs@[i as int]@);
        }
        if !is_digits(s) {
            proof {
                assert(!all_digits(segs.deep_view()[i as int]));
            }
            return false;
        }
        i = i + 1;
    }
    true
}

fn cleaned_join(segs: &Vec<Vec<u8>>) -> (r: Vec<u8>)
    ensures
        r@ == spec_join1(segs.deep_view().map_values(|s: Seq<u8>| clean_octet(s)), DOT),
{
    let mut cleaned: Vec<Vec<u8>> = Vec::new();
    let mut i: usize = 0;
    while i < segs.len()
        invariant
            i <= segs@.len(),
            cleaned@.len() == i,
            forall|k: int|
                0 <= k < i ==> cleaned.deep_view()[k] == clean_octet(
                    #[trigger] segs.deep_view()[k],
                ),
        decreases segs.len() - i,
    {
        let c = clean_octet_vec(&segs[i]);
        proof {
            assert(segs.deep_view()[i as int] == segs@[i as int]@);
        }
        cleaned.push(c);
        i = i + 1;
    }
    proof {
        assert(cleaned.deep_view() =~= segs.deep_view().map_values(|s: Seq<u8>| clean_octet(s)));
    }
    crate::text::join1(&cleaned, DOT)
}

/// Classify a host token against the given machine name, per [`spec_resolve`].
pub fn resolve_host(token: &Vec<u8>, machine: &Vec<u8>) -> (r: Result<NetworkAddr, ParseError>)
    ensures
        match r {
            Ok(n) => spec_resolve(token@, machine@) == Ok::<HostSpec, ParseErrSpec>(n@) && n.wf(),
            Err(e) => spec_resolve(token@, machine@) == Err::<HostSpec, ParseErrSpec>(e@),
        },
{
    let trimmed = trim(token);
    let t = lower_vec(&trimmed);
    let m = lower_vec(machine);
    let segs = split1(&t, DOT);
    let ghost spec_segs = spec_split1(t@, DOT);
    if segs.len() == 4 && all_u8_tokens(&segs) {
        if all_digit_segs(&segs) {
            proof {
                assert(segs.deep_view()[0] == segs@[0]@);
                assert(segs.deep_view()[1] == segs@[1]@);
                assert(segs.deep_view()[2] == segs@[2]@);
                assert(segs.deep_view()[3] == segs@[3]@);
                lemma_u8_token_digits(spec_segs[0]);
                lemma_u8_token_digits(spec_segs[1]);
                lemma_u8_token_digits(spec_segs[2]);
                lemma_u8_token_digits(spec_segs[3]);
            }
            let o1 = dec_value_capped(&segs[0], 255) as u8;
            let o2 = dec_value_capped(&segs[1], 255) as u8;
            let o3 = dec_value_capped(&segs[2], 255) as u8;
            let o4 = dec_value_capped(&segs[3], 255) as u8;
            Ok(NetworkAddr::V4(Ipv4Address { o1, o2, o3, o4 }))
        } else {
            Err(ParseError::Ip(cleaned_join(&segs)))
        }
    } else {
        let lh = localhost_vec();
        let cc1 = colon_colon_one_vec();
        if bytes_eq(&t, &lh) || bytes_eq(&t, &cc1) || bytes_eq(&t, &m) {
            return Ok(NetworkAddr::V4(Ipv4Address { o1: 127, o2: 0, o3: 0, o4: 1 }));
        }
        match parse_ipv6(&t) {
            Some(a) => Ok(NetworkAddr::V6(a)),
            None => {
                if check_hostname(&t) {
                    Ok(NetworkAddr::RAW(t))
                } else {
                    Err(ParseError::Host(t))
                }
            },
        }
    }
}

/// A token that is all digits carries no `+`, so its `u8` bound applies to
/// the token itself.
proof fn lemma_u8_token_digits(s: Seq<u8>)
    requires
        is_u8_token(s),
        all_digits(s),
    ensures
        dec_val(s) <= 255,
{
    if s.len() >= 1 && s[0] == 43 {
        assert(is_digit(s[0]));
    }
}

/// Relies on hostname::get for the executing machine's own name. The result
/// depends on the environment, so nothing is promised of it; a machine whose
/// name cannot be read or is not UTF-8 counts as `localhost`.
#[verifier::external_body]
pub(crate) fn machine_hostname_bytes() -> Vec<u8> {
    match hostname::get() {
        Ok(h) => match h.into_string() {
            Ok(s) => s.into_bytes(),
            Err(_) => String::from("localhost").into_bytes(),
        },
        Err(_) => String::from("localhost").into_bytes(),
    }
}

// ---------------------------------------------------------------------------
// Canonical host text
// ---------------------------------------------------------------------------
/// The canonical text of a resolved host: dotted octets, colon-separated
/// hex groups, or the hostname itself.
pub open spec fn host_canon(h: HostSpec) -> Seq<u8> {
    match h {
        HostSpec::V4 { o1, o2, o3, o4 } => {
            spec_join1(
                seq![dec_str(o1 as nat), dec_str(o2 as nat), dec_str(o3 as nat), dec_str(o4 as nat)],
                DOT,
            )
        },
        HostSpec::V6 { gs } => spec_join1(v6_group_texts(gs), COLON),
        HostSpec::Raw { name } => name,
    }
}

/// The eight hexadecimal group texts of an IPv6 address.
pub open spec fn v6_group_texts(gs: Seq<u16>) -> Seq<Seq<u8>> {
    seq![
        hex_str(gs[0] as nat),
        hex_str(gs[1] as nat),
        hex_str(gs[2] as nat),
        hex_str(gs[3] as nat),
        hex_str(gs[4] as nat),
        hex_str(gs[5] as nat),
        hex_str(gs[6] as nat),
        hex_str(gs[7] as nat),
    ]
}

impl NetworkAddr {
    /// A structurally equal copy of the host.
    pub fn duplicate(&self) -> (r: NetworkAddr)
        ensures
            r@ == self@,
            self.wf() ==> r.wf(),
    {
        match self {
            NetworkAddr::V4(ip) => NetworkAddr::V4(*ip),
            NetworkAddr::V6(ip) => NetworkAddr::V6(*ip),
            NetworkAddr::RAW(name) => {
                let n = subvec(name, 0, name.len());
                proof {
                    assert(n@ =~= name@);
                }
                NetworkAddr::RAW(n)
            },
        }
    }

    /// A raw host is a well-formed lower-case hostname; literals are free.
    pub open spec fn wf(&self) -> bool {
        match self {
            NetworkAddr::RAW(name) => hostname_ok(name@),
            _ => true,
        }
    }

    /// The canonical text of this host, as bytes.
    pub fn text_bytes(&self) -> (r: Vec<u8>)
        ensures
            r@ == host_canon(self@),
    {
        match self {
            NetworkAddr::V4(ip) => {
                let mut parts: Vec<Vec<u8>> = Vec::new();
                parts.push(dec_vec(ip.o1 as u32));
                parts.push(dec_vec(ip.o2 as u32));
                parts.push(dec_vec(ip.o3 as u32));
                parts.push(dec_vec(ip.o4 as u32));
                let out = crate::text::join1(&parts, DOT);
                proof {
                    assert(parts.deep_view() =~~= seq![
                        dec_str(ip.o1 as nat),
                        dec_str(ip.o2 as nat),
                        dec_str(ip.o3 as nat),
                        dec_str(ip.o4 as nat),
                    ]);
                }
                out
            },
            NetworkAddr::V6(ip) => {
                let mut parts: Vec<Vec<u8>> = Vec::new();
                parts.push(hex_vec(ip.g1));
                parts.push(hex_vec(ip.g2));
                parts.push(hex_vec(ip.g3));
                parts.push(hex_vec(ip.g4));
                parts.push(hex_vec(ip.g5));
                parts.push(hex_vec(ip.g6));
                parts.push(hex_vec(ip.g7));
                parts.push(hex_vec(ip.g8));
                let out = crate::text::join1(&parts, COLON);
                proof {
                    assert(parts.deep_view() =~~= v6_group_texts(ip.groups()));
                }
                out
            },
            NetworkAddr::RAW(name) => subvec(name, 0, name.len()),
        }
    }
}

/// A hostname is plain ASCII: its labels hold letters, digits and hyphens,
/// and its separators are dots.
pub proof fn lemma_hostname_ascii(t: Seq<u8>)
    requires
        hostname_ok(t),
    ensures
        is_ascii_bytes(t),
{
    crate::text::lemma_split1_pred(t, DOT, |b: u8| is_host_char(b));
}

// ---------------------------------------------------------------------------
// Socket endpoints
// ---------------------------------------------------------------------------
/// Spec-level shape of a socket endpoint.
pub struct SockSpec {
    pub host: HostSpec,
    pub port: u16,
}

/// A host kept by name: DNS resolution is deferred to connect time, so
/// repeated connects can observe DNS changes.
#[derive(Clone, Debug, PartialEq, Eq, Hash, PartialOrd, Ord)]
pub struct RawSocket {
    pub host_name: Vec<u8>,
    pub port: u16,
}

impl View for RawSocket {
    type V = SockSpec;

    open spec fn view(&self) -> SockSpec {
        SockSpec { host: HostSpec::Raw { name: self.host_name@ }, port: self.port }
    }
}

impl RawSocket {
    pub open spec fn wf(&self) -> bool {
        hostname_ok(self.host_name@)
    }

    /// The hostname this endpoint keeps.
    pub fn host_name(&self) -> (r: String)
        requires
            self.wf(),
        ensures
            r@ == ascii_chars(self.host_name@),
    {
        proof {
            lemma_hostname_ascii(self.host_name@);
        }
        ascii_to_string(subvec(&self.host_name, 0, self.host_name.len()))
    }

    /// The port this endpoint keeps.
    pub fn port(&self) -> (r: u16)
        ensures
            r == self@.port,
    {
        self.port
    }
}

/// A parsed socket endpoint: a numeric address with a port, or a raw host
/// whose lookup is deferred.
#[derive(Clone, Debug, PartialEq, Eq, Hash, PartialOrd, Ord)]
pub enum Socket {
    V4 { ip: Ipv4Address, port: u16 },
    V6 { ip: Ipv6Address, port: u16 },
    Raw(RawSocket),
}

impl View for Socket {
    type V = SockSpec;

    open spec fn view(&self) -> SockSpec {
        match self {
            Socket::V4 { ip, port } => {
                SockSpec {
                    host: HostSpec::V4 { o1: ip.o1, o2: ip.o2, o3: ip.o3, o4: ip.o4 },
                    port: *port,
                }
            },
            Socket::V6 { ip, port } => {
                SockSpec { host: HostSpec::V6 { gs: ip.groups() }, port: *port }
            },
            Socket::Raw(rs) => rs@,
        }
    }
}

/// A socket address string: colon-separated segments, each trimmed; the last
/// is the port, the rest joined again form the host.
pub open spec fn spec_socket(addr: Seq<u8>, machine: Seq<u8>) -> Result<SockSpec, ParseErrSpec> {
    let parts = spec_split1(addr, COLON).map_values(|p: Seq<u8>| spec_trim(p));
    if parts.len() < 2 {
        Err(ParseErrSpec::Format)
    } else {
        let ptok = parts.last();
        let host = spec_join1(parts.drop_last(), COLON);
        match spec_parse_port(ptok) {
            None => Err(ParseErrSpec::Port { token: ptok }),
            Some(port) => match spec_resolve(host, machine) {
                Ok(h) => Ok(SockSpec { host: h, port }),
                Err(e) => Err(e),
            },
        }
    }
}

/// Parse a socket endpoint against an explicit machine name.
pub fn socket_from_bytes(addr: &Vec<u8>, machine: &Vec<u8>) -> (r: Result<Socket, ParseError>)
    ensures
        match r {
            Ok(s) => spec_socket(addr@, machine@) == Ok::<SockSpec, ParseErrSpec>(s@) && s.wf(),
            Err(e) => spec_socket(addr@, machine@) == Err::<SockSpec, ParseErrSpec>(e@),
        },
{
    let raw_parts = split1(addr, COLON);
    let mut parts: Vec<Vec<u8>> = Vec::new();
    let mut i: usize = 0;
    while i < raw_parts.len()
        invariant
            i <= raw_parts@.len(),
            parts@.len() == i,
            forall|k: int|
                0 <= k < i ==> parts.deep_view()[k] == spec_trim(
                    #[trigger] raw_parts.deep_view()[k],
                ),
        decreases raw_parts.len() - i,
    {
        let t = trim(&raw_parts[i]);
        proof {
            assert(raw_parts.deep_view()[i as int] == raw_parts@[i as int]@);
        }
        parts.push(t);
        i = i + 1;
    }
    proof {
        assert(parts.deep_view() =~= spec_split1(addr@, COLON).map_values(
            |p: Seq<u8>| spec_trim(p),
        ));
    }
    if parts.len() < 2 {
        return Err(ParseError::Format);
    }
    let last = parts.len() - 1;
    let ptok = subvec(&parts[last], 0, parts[last].len());
    proof {
        assert(parts.deep_view()[last as int] == parts@[last as int]@);
        assert(ptok@ == parts.deep_view().last());
    }
    parts.truncate(last);
    proof {
        assert(parts.deep_view() =~= spec_split1(addr@, COLON).map_values(
            |p: Seq<u8>| spec_trim(p),
        ).drop_last());
    }
    let host = crate::text::join1(&parts, COLON);
    match parse_port(&ptok) {
        None => Err(ParseError::Port(ptok)),
        Some(port) => {
            match resolve_host(&host, machine) {
                Err(e) => Err(e),
                Ok(n) => {
                    match n {
                        NetworkAddr::V4(ip) => Ok(Socket::V4 { ip, port }),
                        NetworkAddr::V6(ip) => Ok(Socket::V6 { ip, port }),
                        NetworkAddr::RAW(name) => {
                            Ok(Socket::Raw(RawSocket { host_name: name, port }))
                        },
                    }
                },
            }
        },
    }
}

impl Socket {
    /// The raw-host variant keeps a well-formed lower-case hostname.
    pub open spec fn wf(&self) -> bool {
        match self {
            Socket::Raw(rs) => rs.wf(),
            _ => true,
        }
    }

    /// Parse a socket address string, resolving loopback aliases against
    /// the executing machine's own name.
    pub fn new(address: &str) -> (r: Result<Socket, ParseError>)
        ensures
            match r {
                Ok(s) => (exists|m: Seq<u8>|
                    spec_socket(address.spec_bytes(), m) == Ok::<SockSpec, ParseErrSpec>(s@))
                    && s.wf(),
                Err(e) => exists|m: Seq<u8>|
                    spec_socket(address.spec_bytes(), m) == Err::<SockSpec, ParseErrSpec>(e@),
            },
    {
        let bytes = address.as_bytes_vec();
        let machine = machine_hostname_bytes();
        let r = socket_from_bytes(&bytes, &machine);
        proof {
            let m = machine@;
            assert(match r {
                Ok(s) => spec_socket(address.spec_bytes(), m) == Ok::<SockSpec, ParseErrSpec>(s@),
                Err(e) => spec_socket(address.spec_bytes(), m) == Err::<SockSpec, ParseErrSpec>(
                    e@,
                ),
            });
        }
        r
    }

    /// The canonical host text: a dotted quad, hex groups, or the hostname.
    pub fn ip_or_host(&self) -> (r: String)
        requires
            self.wf(),
        ensures
            r@ == ascii_chars(host_canon(self@.host)),
    {
        let host = match self {
            Socket::V4 { ip, port } => NetworkAddr::V4(*ip).text_bytes(),
            Socket::V6 { ip, port } => NetworkAddr::V6(*ip).text_bytes(),
            Socket::Raw(rs) => subvec(&rs.host_name, 0, rs.host_name.len()),
        };
        proof {
            lemma_host_canon_ascii(self@.host);
        }
        ascii_to_string(host)
    }

    /// A structurally equal copy of the endpoint.
    pub fn duplicate(&self) -> (r: Socket)
        ensures
            r@ == self@,
            self.wf() ==> r.wf(),
    {
        match self {
            Socket::V4 { ip, port } => Socket::V4 { ip: *ip, port: *port },
            Socket::V6 { ip, port } => Socket::V6 { ip: *ip, port: *port },
            Socket::Raw(rs) => {
                let hn = subvec(&rs.host_name, 0, rs.host_name.len());
                proof {
                    assert(hn@ =~= rs.host_name@);
                }
                Socket::Raw(RawSocket { host_name: hn, port: rs.port })
            },
        }
    }

    /// The canonical endpoint text `host:port`, as bytes.
    pub fn text_bytes(&self) -> (r: Vec<u8>)
        requires
            self.wf(),
        ensures
            r@ == host_canon(self@.host) + seq![COLON] + dec_str(self@.port as nat),
    {
        let mut out = match self {
            Socket::V4 { ip, port } => NetworkAddr::V4(*ip).text_bytes(),
            Socket::V6 { ip, port } => NetworkAddr::V6(*ip).text_bytes(),
            Socket::Raw(rs) => subvec(&rs.host_name, 0, rs.host_name.len()),
        };
        out.push(COLON);
        push_dec(&mut out, self.port() as u32);
        proof {
            assert(out@ =~= host_canon(self@.host) + seq![COLON] + dec_str(self@.port as nat));
        }
        out
    }

    /// The endpoint's port.
    pub fn port(&self) -> (r: u16)
        ensures
            r == self@.port,
    {
        match self {
            Socket::V4 { ip, port } => *port,
            Socket::V6 { ip, port } => *port,
            Socket::Raw(rs) => rs.port,
        }
    }
}

/// Canonical host text is plain ASCII.
pub proof fn lemma_host_canon_ascii(h: HostSpec)
    requires
        (h matches HostSpec::Raw { name } ==> hostname_ok(name)),
    ensures
        is_ascii_bytes(host_canon(h)),
{
    match h {
        HostSpec::V4 { o1, o2, o3, o4 } => {
            lemma_dec_str(o1 as nat);
            lemma_dec_str(o2 as nat);
            lemma_dec_str(o3 as nat);
            lemma_dec_str(o4 as nat);
            crate::text::lemma_join1_pred(
                seq![dec_str(o1 as nat), dec_str(o2 as nat), dec_str(o3 as nat), dec_str(o4 as nat)],
                DOT,
                |b: u8| b < 128,
            );
        },
        HostSpec::V6 { gs } => {
            lemma_hex_str(gs[0] as nat);
            lemma_hex_str(gs[1] as nat);
            lemma_hex_str(gs[2] as nat);
            lemma_hex_str(gs[3] as nat);
            lemma_hex_str(gs[4] as nat);
            lemma_hex_str(gs[5] as nat);
            lemma_hex_str(gs[6] as nat);
            lemma_hex_str(gs[7] as nat);
            crate::text::lemma_join1_pred(v6_group_texts(gs), COLON, |b: u8| b < 128);
        },
        HostSpec::Raw { name } => {
            lemma_hostname_ascii(name);
        },
    }
}

fn dec_vec(n: u32) -> (r: Vec<u8>)
    ensures
        r@ == dec_str(n as nat),
{
    let mut v: Vec<u8> = Vec::new();
    push_dec(&mut v, n);
    proof {
        assert(v@ =~= dec_str(n as nat));
    }
    v
}

fn hex_vec(n: u16) -> (r: Vec<u8>)
    ensures
        r@ == hex_str(n as nat),
{
    let mut v: Vec<u8> = Vec::new();
    push_hex(&mut v, n);
    proof {
        assert(v@ =~= hex_str(n as nat));
    }
    v
}

impl NetworkAddr {
    /// Resolve a host token against the executing machine's own name.
    pub fn new(token: &str) -> (r: Result<NetworkAddr, ParseError>)
        ensures
            match r {
                Ok(n) => (exists|m: Seq<u8>|
                    spec_resolve(token.spec_bytes(), m) == Ok::<HostSpec, ParseErrSpec>(n@))
                    && n.wf(),
                Err(e) => exists|m: Seq<u8>|
                    spec_resolve(token.spec_bytes(), m) == Err::<HostSpec, ParseErrSpec>(e@),
            },
    {
        let bytes = token.as_bytes_vec();
        let machine = machine_hostname_bytes();
        let r = resolve_host(&bytes, &machine);
        proof {
            let m = machine@;
            assert(match r {
                Ok(n) => spec_resolve(token.spec_bytes(), m) == Ok::<HostSpec, ParseErrSpec>(n@),
                Err(e) => spec_resolve(token.spec_bytes(), m) == Err::<HostSpec, ParseErrSpec>(
                    e@,
                ),
            });
        }
        r
    }
}

/// Whether the text is a decimal octet, as `u8::from_str` accepts it.
pub fn is_u8(s: &str) -> (r: bool)
    ensures
        r == is_u8_token(s.spec_bytes()),
{
    let bytes = s.as_bytes_vec();
    check_u8_token(&bytes)
}

impl core::str::FromStr for Socket {
    type Err = String;

    fn from_str(s: &str) -> Result<Socket, String> {
        match Socket::new(s) {
            Ok(x) => Ok(x),
            Err(e) => Err(e.message()),
        }
    }
}

impl core::str::FromStr for NetworkAddr {
    type Err = String;

    fn from_str(s: &str) -> Result<NetworkAddr, String> {
        match NetworkAddr::new(s) {
            Ok(x) => Ok(x),
            Err(e) => Err(e.message()),
        }
    }
}

} // verus!
