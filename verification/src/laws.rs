//! The laws the address grammar obeys, chief among them idempotent
//! canonicalization: re-parsing the canonical text of any accepted address
//! yields a structurally equal address.

use vstd::prelude::*;

use crate::address::{
    board_of, canon_bytes, digits1, gpib_lit, gpib_match, head_matches, instr_lit, sep2,
    socket_lit, spec_gpib, spec_parse, spec_visa_socket, spec_vxi, tcpip_lit, visa_socket_match,
    vxi_match, AddrSpec,
};
use crate::err::ParseErrSpec;
use crate::socket::{
    all_h16, colon_colon_one, h16_values, host_canon, hostname_ok, is_host_char, is_u8_token,
    label_ok, localhost_bytes, resolve_norm, spec_parse_ipv6, spec_parse_port, spec_resolve,
    spec_socket, HostSpec, SockSpec,
};
use crate::text::{
    all_digits, all_hex_digits, dec_str, find1, has_byte, has_sep2, hex_val, is_digit,
    is_hex_digit, is_upper, is_ws, lemma_dec_str, lemma_find1_none, lemma_find2_none,
    lemma_hex_str, lemma_join1_split1, lemma_lower_id, lemma_nonempty_parts_shape,
    lemma_normalize_id, lemma_split1_concat, lemma_split1_pred, lemma_split1_whole,
    lemma_split2_append, lemma_split2_whole, lemma_trim_id, lower_seq, spec_join1, spec_normalize,
    spec_split1, spec_split2, spec_trim, to_lower, COLON, DOT,
};

verus! {

/// A well-formed host: an IPv6 literal holds exactly eight groups, and a raw
/// host is a well-formed lower-case hostname.
pub open spec fn host_wf(h: HostSpec) -> bool {
    match h {
        HostSpec::V4 { .. } => true,
        HostSpec::V6 { gs } => gs.len() == 8,
        HostSpec::Raw { name } => hostname_ok(name),
    }
}

/// A well-formed address: the fields the grammar can produce.
pub open spec fn addr_wf(a: AddrSpec) -> bool {
    match a {
        AddrSpec::Gpib { board, primary } => digits1(board) && primary <= 30,
        AddrSpec::VisaSocket { board, host, port } => digits1(board) && host_wf(host),
        AddrSpec::Vxi { board, host } => digits1(board) && host_wf(host),
        AddrSpec::Sock { host, port } => host_wf(host),
    }
}

/// A byte that survives normalization unchanged.
pub open spec fn is_clean(b: u8) -> bool {
    !is_ws(b) && !is_upper(b)
}

pub open spec fn all_clean(s: Seq<u8>) -> bool {
    forall|i: int| 0 <= i < s.len() ==> is_clean(#[trigger] s[i])
}

pub open spec fn no_byte(s: Seq<u8>, x: u8) -> bool {
    forall|i: int| 0 <= i < s.len() ==> s[i] != x
}

proof fn lemma_clean_app(a: Seq<u8>, b: Seq<u8>)
    requires
        all_clean(a),
        all_clean(b),
    ensures
        all_clean(a + b),
{
    assert forall|i: int| 0 <= i < (a + b).len() implies is_clean(#[trigger] (a + b)[i]) by {
        if i < a.len() {
            assert((a + b)[i] == a[i]);
        } else {
            assert((a + b)[i] == b[i - a.len()]);
        }
    }
}

proof fn lemma_no_byte_app(a: Seq<u8>, b: Seq<u8>, x: u8)
    requires
        no_byte(a, x),
        no_byte(b, x),
    ensures
        no_byte(a + b, x),
{
    assert forall|i: int| 0 <= i < (a + b).len() implies (a + b)[i] != x by {
        if i < a.len() {
            assert((a + b)[i] == a[i]);
        } else {
            assert((a + b)[i] == b[i - a.len()]);
        }
    }
}

proof fn lemma_digits_clean(s: Seq<u8>)
    requires
        all_digits(s),
    ensures
        all_clean(s),
        no_byte(s, COLON),
        no_byte(s, DOT),
{
}

proof fn lemma_hex_clean(s: Seq<u8>)
    requires
        all_hex_digits(s),
    ensures
        all_clean(s),
        no_byte(s, COLON),
        no_byte(s, DOT),
{
}

proof fn lemma_hostname_bytes(t: Seq<u8>)
    requires
        hostname_ok(t),
    ensures
        all_clean(t),
        no_byte(t, COLON),
{
    lemma_split1_pred(t, DOT, |b: u8| is_host_char(b));
    assert forall|i: int| 0 <= i < t.len() implies is_clean(#[trigger] t[i]) && t[i] != COLON by {
        assert(is_host_char(t[i]) || t[i] == DOT);
    }
}

proof fn lemma_lits_clean()
    ensures
        all_clean(gpib_lit()),
        all_clean(tcpip_lit()),
        all_clean(instr_lit()),
        all_clean(socket_lit()),
        all_clean(sep2()),
        all_clean(seq![COLON]),
        all_clean(seq![DOT]),
        no_byte(gpib_lit(), COLON),
        no_byte(tcpip_lit(), COLON),
        no_byte(instr_lit(), COLON),
        no_byte(socket_lit(), COLON),
{
    assert forall|i: int| 0 <= i < gpib_lit().len() implies is_clean(#[trigger] gpib_lit()[i])
        && gpib_lit()[i] != COLON by {
        if i == 0 {
        } else if i == 1 {
        } else if i == 2 {
        } else {
        }
    }
    assert forall|i: int| 0 <= i < tcpip_lit().len() implies is_clean(#[trigger] tcpip_lit()[i])
        && tcpip_lit()[i] != COLON by {
        if i == 0 {
        } else if i == 1 {
        } else if i == 2 {
        } else if i == 3 {
        } else {
        }
    }
    assert forall|i: int| 0 <= i < instr_lit().len() implies is_clean(#[trigger] instr_lit()[i])
        && instr_lit()[i] != COLON by {
        if i == 0 {
        } else if i == 1 {
        } else if i == 2 {
        } else if i == 3 {
        } else {
        }
    }
    assert forall|i: int| 0 <= i < socket_lit().len() implies is_clean(
        #[trigger] socket_lit()[i],
    ) && socket_lit()[i] != COLON by {
        if i == 0 {
        } else if i == 1 {
        } else if i == 2 {
        } else if i == 3 {
        } else if i == 4 {
        } else {
        }
    }
    assert forall|i: int| 0 <= i < sep2().len() implies is_clean(#[trigger] sep2()[i]) by {
        if i == 0 {
        } else {
        }
    }
    assert forall|i: int| 0 <= i < seq![COLON].len() implies is_clean(#[trigger] seq![COLON][i])
        by {}
    assert forall|i: int| 0 <= i < seq![DOT].len() implies is_clean(#[trigger] seq![DOT][i]) by {}
}

/// The canonical host text is clean: no whitespace, no upper-case letter.
proof fn lemma_host_canon_clean(h: HostSpec)
    requires
        host_wf(h),
    ensures
        all_clean(host_canon(h)),
{
    lemma_lits_clean();
    match h {
        HostSpec::V4 { o1, o2, o3, o4 } => {
            let parts = v4_octet_texts(o1, o2, o3, o4);
            lemma_v4_parts_facts(o1, o2, o3, o4);
            crate::text::lemma_join1_pred(parts, DOT, |b: u8| is_clean(b));
        },
        HostSpec::V6 { gs } => {
            let parts = crate::socket::v6_group_texts(gs);
            lemma_v6_parts_facts(gs);
            crate::text::lemma_join1_pred(parts, COLON, |b: u8| is_clean(b));
        },
        HostSpec::Raw { name } => {
            lemma_hostname_bytes(name);
        },
    }
}

/// The four octet texts of a canonical IPv4 address.
pub open spec fn v4_octet_texts(o1: u8, o2: u8, o3: u8, o4: u8) -> Seq<Seq<u8>> {
    seq![dec_str(o1 as nat), dec_str(o2 as nat), dec_str(o3 as nat), dec_str(o4 as nat)]
}

proof fn lemma_v4_parts_facts(o1: u8, o2: u8, o3: u8, o4: u8)
    ensures
        forall|i: int, k: int|
            0 <= i < v4_octet_texts(o1, o2, o3, o4).len() && 0 <= k < v4_octet_texts(
                o1,
                o2,
                o3,
                o4,
            )[i].len() ==> is_digit(#[trigger] v4_octet_texts(o1, o2, o3, o4)[i][k]),
        forall|i: int|
            0 <= i < v4_octet_texts(o1, o2, o3, o4).len() ==> #[trigger] v4_octet_texts(
                o1,
                o2,
                o3,
                o4,
            )[i].len() >= 1,
{
    let parts = v4_octet_texts(o1, o2, o3, o4);
    lemma_dec_str(o1 as nat);
    lemma_dec_str(o2 as nat);
    lemma_dec_str(o3 as nat);
    lemma_dec_str(o4 as nat);
    assert forall|i: int, k: int|
        0 <= i < parts.len() && 0 <= k < parts[i].len() implies is_digit(
        #[trigger] parts[i][k],
    ) by {
        if i == 0 {
        } else if i == 1 {
        } else if i == 2 {
        } else {
        }
    }
    assert forall|i: int| 0 <= i < parts.len() implies #[trigger] parts[i].len() >= 1 by {
        if i == 0 {
        } else if i == 1 {
        } else if i == 2 {
        } else {
        }
    }
}

proof fn lemma_v6_parts_facts(gs: Seq<u16>)
    requires
        gs.len() == 8,
    ensures
        forall|i: int, k: int|
            0 <= i < crate::socket::v6_group_texts(gs).len() && 0 <= k
                < crate::socket::v6_group_texts(gs)[i].len() ==> is_hex_digit(
                #[trigger] crate::socket::v6_group_texts(gs)[i][k],
            ),
        forall|i: int|
            0 <= i < crate::socket::v6_group_texts(gs).len() ==> 1 <= #[trigger] crate::socket::v6_group_texts(
                gs,
            )[i].len() <= 4,
        all_h16(crate::socket::v6_group_texts(gs)),
        forall|i: int|
            0 <= i < crate::socket::v6_group_texts(gs).len() ==> hex_val(
                #[trigger] crate::socket::v6_group_texts(gs)[i],
            ) == gs[i],
{
    let parts = crate::socket::v6_group_texts(gs);
    lemma_hex_str(gs[0] as nat);
    lemma_hex_str(gs[1] as nat);
    lemma_hex_str(gs[2] as nat);
    lemma_hex_str(gs[3] as nat);
    lemma_hex_str(gs[4] as nat);
    lemma_hex_str(gs[5] as nat);
    lemma_hex_str(gs[6] as nat);
    lemma_hex_str(gs[7] as nat);
    assert forall|i: int, k: int|
        0 <= i < parts.len() && 0 <= k < parts[i].len() implies is_hex_digit(
        #[trigger] parts[i][k],
    ) by {
        if i == 0 {
        } else if i == 1 {
        } else if i == 2 {
        } else if i == 3 {
        } else if i == 4 {
        } else if i == 5 {
        } else if i == 6 {
        } else {
        }
    }
    assert forall|i: int| 0 <= i < parts.len() implies 1 <= #[trigger] parts[i].len() <= 4 by {
        if i == 0 {
        } else if i == 1 {
        } else if i == 2 {
        } else if i == 3 {
        } else if i == 4 {
        } else if i == 5 {
        } else if i == 6 {
        } else {
        }
    }
    assert forall|i: int| 0 <= i < parts.len() implies hex_val(#[trigger] parts[i]) == gs[i] by {
        if i == 0 {
        } else if i == 1 {
        } else if i == 2 {
        } else if i == 3 {
        } else if i == 4 {
        } else if i == 5 {
        } else if i == 6 {
        } else {
        }
    }
}

proof fn lemma_no_byte_not_has(s: Seq<u8>, x: u8)
    requires
        no_byte(s, x),
    ensures
        !has_byte(s, x),
{
}

/// The colon-separated parts of a canonical IPv6 text are its eight groups.
proof fn lemma_v6_canon_parts(gs: Seq<u16>)
    requires
        gs.len() == 8,
    ensures
        spec_split1(host_canon(HostSpec::V6 { gs }), COLON) == crate::socket::v6_group_texts(gs),
        no_byte(host_canon(HostSpec::V6 { gs }), DOT),
{
    let parts = crate::socket::v6_group_texts(gs);
    lemma_v6_parts_facts(gs);
    assert forall|i: int, k: int|
        0 <= i < parts.len() && 0 <= k < parts[i].len() implies #[trigger] parts[i][k]
        != COLON by {
        assert(is_hex_digit(parts[i][k]));
    }
    crate::text::lemma_split1_join(parts, COLON);
    crate::text::lemma_join1_pred(parts, COLON, |b: u8| b != DOT);
}

/// The canonical host text never doubles a colon, never starts or ends with
/// one, and is nonempty.
proof fn lemma_host_canon_shape(h: HostSpec)
    requires
        host_wf(h),
    ensures
        !has_sep2(host_canon(h)),
        host_canon(h).len() >= 1,
        host_canon(h)[0] != COLON,
        host_canon(h).last() != COLON,
{
    let c = host_canon(h);
    match h {
        HostSpec::V4 { o1, o2, o3, o4 } => {
            lemma_v4_parts_facts(o1, o2, o3, o4);
            crate::text::lemma_join1_pred(
                v4_octet_texts(o1, o2, o3, o4),
                DOT,
                |b: u8| b != COLON,
            );
            assert forall|k: int| 0 <= k && k + 2 <= c.len() implies !(c[k] == COLON && c[
            #[trigger] (k + 1)] == COLON) by {}
            lemma_join1_min_len(v4_octet_texts(o1, o2, o3, o4), DOT);
        },
        HostSpec::V6 { gs } => {
            let parts = crate::socket::v6_group_texts(gs);
            lemma_v6_parts_facts(gs);
            lemma_v6_canon_parts(gs);
            lemma_nonempty_parts_shape(c);
        },
        HostSpec::Raw { name } => {
            lemma_hostname_bytes(name);
            assert forall|k: int| 0 <= k && k + 2 <= c.len() implies !(c[k] == COLON && c[
            #[trigger] (k + 1)] == COLON) by {}
            assert(c.len() >= 1) by {
                assert(label_ok(spec_split1(name, DOT)[0]));
                if name.len() == 0 {
                    lemma_find1_none(name, 0, DOT);
                }
            }
        },
    }
}

/// A join of nonempty parts is at least as long as its first part.
proof fn lemma_join1_min_len(parts: Seq<Seq<u8>>, sep: u8)
    requires
        parts.len() >= 1,
        forall|i: int| 0 <= i < parts.len() ==> #[trigger] parts[i].len() >= 1,
    ensures
        spec_join1(parts, sep).len() >= parts[0].len(),
        spec_join1(parts, sep)[0] == parts[0][0],
        decreases parts.len(),
{
    if parts.len() > 1 {
        assert(spec_join1(parts, sep)[0] == (parts[0] + seq![sep])[0]);
    }
}

/// The dot-separated parts of a canonical IPv4 text are its four octets.
proof fn lemma_v4_canon_parts(o1: u8, o2: u8, o3: u8, o4: u8)
    ensures
        spec_split1(host_canon(HostSpec::V4 { o1, o2, o3, o4 }), DOT) == v4_octet_texts(
            o1,
            o2,
            o3,
            o4,
        ),
{
    let parts = v4_octet_texts(o1, o2, o3, o4);
    lemma_v4_parts_facts(o1, o2, o3, o4);
    assert forall|i: int, k: int|
        0 <= i < parts.len() && 0 <= k < parts[i].len() implies #[trigger] parts[i][k] != DOT by {
        assert(is_digit(parts[i][k]));
    }
    crate::text::lemma_split1_join(parts, DOT);
}

/// An accepted IPv6 literal always holds exactly eight groups.
proof fn lemma_ipv6_some_len(t: Seq<u8>, gs: Seq<u16>)
    requires
        spec_parse_ipv6(t) == Some(gs),
    ensures
        gs.len() == 8,
{
}

/// A host the resolver accepted is well-formed.
pub proof fn lemma_resolve_ok_wf(tok: Seq<u8>, m: Seq<u8>, h: HostSpec)
    requires
        spec_resolve(tok, m) == Ok::<HostSpec, ParseErrSpec>(h),
    ensures
        host_wf(h),
{
    let t = lower_seq(spec_trim(tok));
    match h {
        HostSpec::V6 { gs } => {
            lemma_ipv6_some_len(t, gs);
        },
        _ => {},
    }
}

/// Normalization leaves clean text unchanged.
proof fn lemma_clean_id(s: Seq<u8>)
    requires
        all_clean(s),
    ensures
        spec_trim(s) == s,
        lower_seq(s) == s,
        spec_normalize(s) == s,
{
    lemma_trim_id(s);
    lemma_lower_id(s);
    lemma_normalize_id(s);
}

/// The machine name stays colon-free under lowercasing.
proof fn lemma_lower_no_colon(m: Seq<u8>)
    requires
        no_byte(m, COLON),
    ensures
        no_byte(lower_seq(m), COLON),
{
    assert forall|i: int| 0 <= i < lower_seq(m).len() implies lower_seq(m)[i] != COLON by {
        assert(lower_seq(m)[i] == to_lower(m[i]));
    }
}

/// A join of at least `n` nonempty parts is at least `2n - 1` long.
proof fn lemma_join1_len(parts: Seq<Seq<u8>>, sep: u8)
    requires
        parts.len() >= 1,
        forall|i: int| 0 <= i < parts.len() ==> #[trigger] parts[i].len() >= 1,
    ensures
        spec_join1(parts, sep).len() >= 2 * parts.len() - 1,
    decreases parts.len(),
{
    if parts.len() > 1 {
        let rest = parts.drop_first();
        assert forall|i: int| 0 <= i < rest.len() implies #[trigger] rest[i].len() >= 1 by {
            assert(rest[i] == parts[i + 1]);
        }
        lemma_join1_len(rest, sep);
        assert(parts[0].len() >= 1);
    }
}

/// The join of two or more parts holds the separator right after its first
/// part.
proof fn lemma_join1_sep_at(parts: Seq<Seq<u8>>, sep: u8)
    requires
        parts.len() >= 2,
    ensures
        0 <= parts[0].len() < spec_join1(parts, sep).len(),
        spec_join1(parts, sep)[parts[0].len() as int] == sep,
{
    let j = spec_join1(parts, sep);
    assert(j == parts[0] + seq![sep] + spec_join1(parts.drop_first(), sep));
    assert(j[parts[0].len() as int] == (parts[0] + seq![sep])[parts[0].len() as int]);
}

/// Re-resolving the canonical text of a resolved host gives the host back.
/// The machine name must be colon-free, as real hostnames are: a machine
/// named like the canonical text of an IPv6 literal would alias to loopback.
pub proof fn lemma_resolve_canon(tok: Seq<u8>, m: Seq<u8>, h: HostSpec)
    requires
        spec_resolve(tok, m) == Ok::<HostSpec, ParseErrSpec>(h),
        no_byte(m, COLON),
    ensures
        spec_resolve(host_canon(h), m) == Ok::<HostSpec, ParseErrSpec>(h),
{
    lemma_resolve_ok_wf(tok, m, h);
    let c = host_canon(h);
    lemma_host_canon_clean(h);
    lemma_clean_id(c);
    let lm = lower_seq(m);
    lemma_lower_no_colon(m);
    match h {
        HostSpec::V4 { o1, o2, o3, o4 } => {
            lemma_v4_canon_parts(o1, o2, o3, o4);
            lemma_v4_parts_facts(o1, o2, o3, o4);
            let segs = spec_split1(c, DOT);
            lemma_dec_str(o1 as nat);
            lemma_dec_str(o2 as nat);
            lemma_dec_str(o3 as nat);
            lemma_dec_str(o4 as nat);
            assert forall|i: int| 0 <= i < 4 implies is_u8_token(#[trigger] segs[i]) by {
                if i == 0 {
                    assert(!(segs[0][0] == 43)) by {
                        assert(is_digit(dec_str(o1 as nat)[0]));
                    }
                } else if i == 1 {
                    assert(!(segs[1][0] == 43)) by {
                        assert(is_digit(dec_str(o2 as nat)[0]));
                    }
                } else if i == 2 {
                    assert(!(segs[2][0] == 43)) by {
                        assert(is_digit(dec_str(o3 as nat)[0]));
                    }
                } else {
                    assert(!(segs[3][0] == 43)) by {
                        assert(is_digit(dec_str(o4 as nat)[0]));
                    }
                }
            }
            assert forall|i: int| 0 <= i < 4 implies all_digits(#[trigger] segs[i]) by {
                if i == 0 {
                } else if i == 1 {
                } else if i == 2 {
                } else {
                }
            }
            assert(resolve_norm(c, lm) == Ok::<HostSpec, ParseErrSpec>(h));
        },
        HostSpec::V6 { gs } => {
            let parts = crate::socket::v6_group_texts(gs);
            lemma_v6_canon_parts(gs);
            lemma_v6_parts_facts(gs);
            lemma_host_canon_shape(h);
            // not a dotted quad: no dot at all, so a single dot-segment
            lemma_no_byte_not_has(c, DOT);
            lemma_split1_whole(c, DOT);
            // long enough to differ from both aliases
            lemma_join1_len(parts, COLON);
            assert(c.len() >= 15);
            assert(localhost_bytes().len() == 9);
            assert(colon_colon_one().len() == 3);
            // the separator colon rules out the machine name
            lemma_join1_sep_at(parts, COLON);
            assert(c != lm) by {
                if c == lm {
                    assert(lm[parts[0].len() as int] == COLON);
                }
            }
            // the literal itself parses back to the same groups
            assert forall|k: int|
                0 <= k && k + 2 <= c.len() implies !(c[k] == COLON && c[#[trigger] (k + 1)]
                == COLON) by {
                if c[k] == COLON && c[k + 1] == COLON {
                    assert(has_sep2(c));
                }
            }
            lemma_find2_none(c, 0);
            assert(spec_parse_ipv6(c) == Some(h16_values(parts)));
            assert(h16_values(parts) =~= gs);
            assert(resolve_norm(c, lm) == Ok::<HostSpec, ParseErrSpec>(h));
        },
        HostSpec::Raw { name } => {
            let t = lower_seq(spec_trim(tok));
            assert(name == t);
            assert(resolve_norm(c, lm) == resolve_norm(t, lm));
        },
    }
}

/// The parts of the canonical host text, split on colons: the groups of an
/// IPv6 literal, else the whole text; all nonempty.
proof fn lemma_host_canon_colon_parts(h: HostSpec)
    requires
        host_wf(h),
    ensures
        forall|i: int|
            0 <= i < spec_split1(host_canon(h), COLON).len() ==> #[trigger] spec_split1(
                host_canon(h),
                COLON,
            )[i].len() >= 1,
        forall|i: int|
            0 <= i < spec_split1(host_canon(h), COLON).len() ==> all_clean(
                #[trigger] spec_split1(host_canon(h), COLON)[i],
            ),
{
    let c = host_canon(h);
    let parts = spec_split1(c, COLON);
    lemma_host_canon_shape(h);
    lemma_host_canon_clean(h);
    match h {
        HostSpec::V4 { o1, o2, o3, o4 } => {
            lemma_v4_parts_facts(o1, o2, o3, o4);
            crate::text::lemma_join1_pred(
                v4_octet_texts(o1, o2, o3, o4),
                DOT,
                |b: u8| b != COLON,
            );
            assert forall|k: int| 0 <= k < c.len() implies c[k] != COLON by {}
            lemma_no_byte_not_has(c, COLON);
            lemma_split1_whole(c, COLON);
            assert(parts[0] == c);
        },
        HostSpec::V6 { gs } => {
            lemma_v6_canon_parts(gs);
            lemma_v6_parts_facts(gs);
            let texts = crate::socket::v6_group_texts(gs);
            assert forall|i: int| 0 <= i < parts.len() implies #[trigger] parts[i].len() >= 1
                && all_clean(parts[i]) by {
                assert(parts[i] == texts[i]);
                assert(1 <= texts[i].len());
                lemma_hex_clean(texts[i]);
            }
        },
        HostSpec::Raw { name } => {
            lemma_hostname_bytes(name);
            lemma_no_byte_not_has(c, COLON);
            lemma_split1_whole(c, COLON);
            assert(parts[0] == c);
        },
    }
}

/// A head segment rebuilt from its literal and board splits back apart.
proof fn lemma_head(lit: Seq<u8>, board: Seq<u8>)
    requires
        digits1(board),
        no_byte(lit, COLON),
        all_clean(lit),
        lit.len() >= 1,
    ensures
        head_matches(lit + board, lit),
        board_of(lit + board, lit) == board,
        no_byte(lit + board, COLON),
        all_clean(lit + board),
        (lit + board).last() != COLON,
        !has_sep2(lit + board),
{
    let a = lit + board;
    assert(a.take(lit.len() as int) =~= lit);
    assert(a.skip(lit.len() as int) =~= board);
    lemma_digits_clean(board);
    lemma_no_byte_app(lit, board, COLON);
    lemma_clean_app(lit, board);
    assert(a.last() == board.last());
    assert(is_digit(board[board.len() - 1]));
    assert forall|k: int| 0 <= k && k + 2 <= a.len() implies !(a[k] == COLON && a[#[trigger] (k
        + 1)] == COLON) by {}
}

/// The numeral of a port parses back to the port.
proof fn lemma_port_reparse(port: u16)
    ensures
        spec_parse_port(dec_str(port as nat)) == Some(port),
{
    lemma_dec_str(port as nat);
    let s = dec_str(port as nat);
    assert(is_digit(s[0]));
    assert(s[0] != 43);
}

/// The canonical text of a well-formed address is clean.
proof fn lemma_canon_clean(a: AddrSpec)
    requires
        addr_wf(a),
    ensures
        all_clean(canon_bytes(a)),
{
    lemma_lits_clean();
    match a {
        AddrSpec::Gpib { board, primary } => {
            lemma_digits_clean(board);
            lemma_dec_str(primary as nat);
            lemma_digits_clean(dec_str(primary as nat));
            lemma_clean_app(gpib_lit(), board);
            lemma_clean_app(gpib_lit() + board, sep2());
            lemma_clean_app(gpib_lit() + board + sep2(), dec_str(primary as nat));
            lemma_clean_app(gpib_lit() + board + sep2() + dec_str(primary as nat), sep2());
            lemma_clean_app(
                gpib_lit() + board + sep2() + dec_str(primary as nat) + sep2(),
                instr_lit(),
            );
        },
        AddrSpec::VisaSocket { board, host, port } => {
            lemma_digits_clean(board);
            lemma_host_canon_clean(host);
            lemma_dec_str(port as nat);
            lemma_digits_clean(dec_str(port as nat));
            lemma_clean_app(tcpip_lit(), board);
            lemma_clean_app(tcpip_lit() + board, sep2());
            lemma_clean_app(tcpip_lit() + board + sep2(), host_canon(host));
            lemma_clean_app(tcpip_lit() + board + sep2() + host_canon(host), sep2());
            lemma_clean_app(
                tcpip_lit() + board + sep2() + host_canon(host) + sep2(),
                dec_str(port as nat),
            );
            lemma_clean_app(
                tcpip_lit() + board + sep2() + host_canon(host) + sep2() + dec_str(port as nat),
                sep2(),
            );
            lemma_clean_app(
                tcpip_lit() + board + sep2() + host_canon(host) + sep2() + dec_str(port as nat)
                    + sep2(),
                socket_lit(),
            );
        },
        AddrSpec::Vxi { board, host } => {
            lemma_digits_clean(board);
            lemma_host_canon_clean(host);
            lemma_clean_app(tcpip_lit(), board);
            lemma_clean_app(tcpip_lit() + board, sep2());
            lemma_clean_app(tcpip_lit() + board + sep2(), host_canon(host));
            lemma_clean_app(tcpip_lit() + board + sep2() + host_canon(host), sep2());
            lemma_clean_app(
                tcpip_lit() + board + sep2() + host_canon(host) + sep2(),
                instr_lit(),
            );
        },
        AddrSpec::Sock { host, port } => {
            lemma_host_canon_clean(host);
            lemma_dec_str(port as nat);
            lemma_digits_clean(dec_str(port as nat));
            lemma_clean_app(host_canon(host), seq![COLON]);
            lemma_clean_app(host_canon(host) + seq![COLON], dec_str(port as nat));
        },
    }
}

/// The canonical GPIB text splits into its head, primary and suffix.
#[verifier::rlimit(100)]
#[verifier::spinoff_prover]
proof fn lemma_gpib_canon_split(board: Seq<u8>, primary: u8)
    requires
        digits1(board),
    ensures
        spec_split2(canon_bytes(AddrSpec::Gpib { board, primary })) == seq![
            gpib_lit() + board,
            dec_str(primary as nat),
            instr_lit(),
        ],
{
    let c = canon_bytes(AddrSpec::Gpib { board, primary });
    lemma_lits_clean();
    let head = gpib_lit() + board;
    let dec = dec_str(primary as nat);
    lemma_dec_str(primary as nat);
    lemma_digits_clean(dec);
    let tail = dec + seq![COLON, COLON] + instr_lit();
    assert(c =~= head + seq![COLON, COLON] + tail);
    lemma_head(gpib_lit(), board);
    lemma_split2_append(head, tail);
    lemma_split2_append(dec, instr_lit());
    assert(!has_sep2(instr_lit())) by {
        assert forall|k: int|
            0 <= k && k + 2 <= instr_lit().len() implies !(instr_lit()[k] == COLON && instr_lit()[
        #[trigger] (k + 1)] == COLON) by {}
    }
    lemma_split2_whole(instr_lit());
    assert(spec_split2(c) =~= seq![head, dec, instr_lit()]);
}

/// The canonical GPIB text re-parses to the same address.
#[verifier::spinoff_prover]
proof fn lemma_gpib_reparse(board: Seq<u8>, primary: u8, m: Seq<u8>)
    requires
        digits1(board),
        primary <= 30,
    ensures
        spec_parse(canon_bytes(AddrSpec::Gpib { board, primary }), m) == Ok::<
            AddrSpec,
            ParseErrSpec,
        >(AddrSpec::Gpib { board, primary }),
{
    let a = AddrSpec::Gpib { board, primary };
    let c = canon_bytes(a);
    lemma_canon_clean(a);
    lemma_clean_id(c);
    lemma_lits_clean();
    let head = gpib_lit() + board;
    let dec = dec_str(primary as nat);
    lemma_dec_str(primary as nat);
    lemma_head(gpib_lit(), board);
    lemma_gpib_canon_split(board, primary);
    let segs = spec_split2(c);
    assert(segs == seq![head, dec, instr_lit()]);
    assert(gpib_match(segs));
    assert(spec_gpib(segs) == Ok::<AddrSpec, ParseErrSpec>(a));
}

/// The canonical VISA-socket text splits into head, host, port and suffix.
#[verifier::rlimit(100)]
#[verifier::spinoff_prover]
proof fn lemma_visa_socket_canon_split(board: Seq<u8>, host: HostSpec, port: u16)
    requires
        digits1(board),
        host_wf(host),
    ensures
        spec_split2(canon_bytes(AddrSpec::VisaSocket { board, host, port })) == seq![
            tcpip_lit() + board,
            host_canon(host),
            dec_str(port as nat),
            socket_lit(),
        ],
{
    let c = canon_bytes(AddrSpec::VisaSocket { board, host, port });
    lemma_lits_clean();
    let head = tcpip_lit() + board;
    let hc = host_canon(host);
    let dec = dec_str(port as nat);
    lemma_dec_str(port as nat);
    lemma_digits_clean(dec);
    lemma_host_canon_shape(host);
    let tail2 = dec + seq![COLON, COLON] + socket_lit();
    let tail1 = hc + seq![COLON, COLON] + tail2;
    assert(c =~= head + seq![COLON, COLON] + tail1);
    lemma_head(tcpip_lit(), board);
    lemma_split2_append(head, tail1);
    lemma_split2_append(hc, tail2);
    lemma_split2_append(dec, socket_lit());
    assert(!has_sep2(socket_lit())) by {
        assert forall|k: int|
            0 <= k && k + 2 <= socket_lit().len() implies !(socket_lit()[k] == COLON
            && socket_lit()[#[trigger] (k + 1)] == COLON) by {}
    }
    lemma_split2_whole(socket_lit());
    assert(spec_split2(c) =~= seq![head, hc, dec, socket_lit()]);
}

/// The canonical VISA-socket text re-parses to the same address.
#[verifier::spinoff_prover]
proof fn lemma_visa_socket_reparse(tok: Seq<u8>, m: Seq<u8>, board: Seq<u8>, host: HostSpec, port: u16)
    requires
        digits1(board),
        spec_resolve(tok, m) == Ok::<HostSpec, ParseErrSpec>(host),
        no_byte(m, COLON),
    ensures
        spec_parse(canon_bytes(AddrSpec::VisaSocket { board, host, port }), m) == Ok::<
            AddrSpec,
            ParseErrSpec,
        >(AddrSpec::VisaSocket { board, host, port }),
{
    let a = AddrSpec::VisaSocket { board, host, port };
    let c = canon_bytes(a);
    lemma_resolve_ok_wf(tok, m, host);
    lemma_canon_clean(a);
    lemma_clean_id(c);
    lemma_lits_clean();
    let head = tcpip_lit() + board;
    let hc = host_canon(host);
    let dec = dec_str(port as nat);
    lemma_dec_str(port as nat);
    lemma_host_canon_shape(host);
    lemma_head(tcpip_lit(), board);
    lemma_visa_socket_canon_split(board, host, port);
    let segs = spec_split2(c);
    assert(segs == seq![head, hc, dec, socket_lit()]);
    assert(!gpib_match(segs)) by {
        if head_matches(segs[0], gpib_lit()) {
            assert(segs[0].take(4)[0] == head[0]);
            assert(head[0] == tcpip_lit()[0]);
            assert(gpib_lit()[0] == 103 && tcpip_lit()[0] == 116);
        }
    }
    assert(visa_socket_match(segs));
    lemma_port_reparse(port);
    lemma_resolve_canon(tok, m, host);
    assert(spec_visa_socket(segs, m) == Ok::<AddrSpec, ParseErrSpec>(a));
}

/// The canonical VXI-11 text splits into head, host and suffix.
#[verifier::rlimit(100)]
#[verifier::spinoff_prover]
proof fn lemma_vxi_canon_split(board: Seq<u8>, host: HostSpec)
    requires
        digits1(board),
        host_wf(host),
    ensures
        spec_split2(canon_bytes(AddrSpec::Vxi { board, host })) == seq![
            tcpip_lit() + board,
            host_canon(host),
            instr_lit(),
        ],
{
    let c = canon_bytes(AddrSpec::Vxi { board, host });
    lemma_lits_clean();
    let head = tcpip_lit() + board;
    let hc = host_canon(host);
    lemma_host_canon_shape(host);
    let tail1 = hc + seq![COLON, COLON] + instr_lit();
    assert(c =~= head + seq![COLON, COLON] + tail1);
    lemma_head(tcpip_lit(), board);
    lemma_split2_append(head, tail1);
    lemma_split2_append(hc, instr_lit());
    assert(!has_sep2(instr_lit())) by {
        assert forall|k: int|
            0 <= k && k + 2 <= instr_lit().len() implies !(instr_lit()[k] == COLON && instr_lit()[
        #[trigger] (k + 1)] == COLON) by {}
    }
    lemma_split2_whole(instr_lit());
    assert(spec_split2(c) =~= seq![head, hc, instr_lit()]);
}

/// The canonical VXI-11 text re-parses to the same address.
#[verifier::rlimit(100)]
#[verifier::spinoff_prover]
proof fn lemma_vxi_reparse(tok: Seq<u8>, m: Seq<u8>, board: Seq<u8>, host: HostSpec)
    requires
        digits1(board),
        spec_resolve(tok, m) == Ok::<HostSpec, ParseErrSpec>(host),
        no_byte(m, COLON),
    ensures
        spec_parse(canon_bytes(AddrSpec::Vxi { board, host }), m) == Ok::<AddrSpec, ParseErrSpec>(
            AddrSpec::Vxi { board, host },
        ),
{
    let a = AddrSpec::Vxi { board, host };
    let c = canon_bytes(a);
    lemma_resolve_ok_wf(tok, m, host);
    let head = tcpip_lit() + board;
    let hc = host_canon(host);
    lemma_vxi_canon_split(board, host);
    let segs = spec_split2(c);
    assert(segs == seq![head, hc, instr_lit()]);
    assert(spec_normalize(c) == c) by {
        lemma_canon_clean(a);
        lemma_clean_id(c);
    }
    assert(head_matches(head, tcpip_lit()) && board_of(head, tcpip_lit()) == board) by {
        lemma_lits_clean();
        lemma_head(tcpip_lit(), board);
    }
    assert(!head_matches(head, gpib_lit())) by {
        if head_matches(head, gpib_lit()) {
            assert(head.take(4)[0] == head[0]);
            assert(head[0] == (tcpip_lit() + board)[0]);
            assert((tcpip_lit() + board)[0] == tcpip_lit()[0]);
            assert(gpib_lit()[0] == 103 && tcpip_lit()[0] == 116);
        }
    }
    assert(!gpib_match(segs));
    assert(!visa_socket_match(segs));
    assert(hc.len() >= 1) by {
        lemma_host_canon_shape(host);
    }
    assert(vxi_match(segs));
    assert(spec_vxi(segs, m) == Ok::<AddrSpec, ParseErrSpec>(a)) by {
        lemma_resolve_canon(tok, m, host);
    }
}

/// The canonical socket text re-parses to the same address.
proof fn lemma_sock_reparse(tok: Seq<u8>, m: Seq<u8>, host: HostSpec, port: u16)
    requires
        spec_resolve(tok, m) == Ok::<HostSpec, ParseErrSpec>(host),
        no_byte(m, COLON),
    ensures
        spec_parse(canon_bytes(AddrSpec::Sock { host, port }), m) == Ok::<AddrSpec, ParseErrSpec>(
            AddrSpec::Sock { host, port },
        ),
{
    let a = AddrSpec::Sock { host, port };
    let c = canon_bytes(a);
    lemma_resolve_ok_wf(tok, m, host);
    lemma_canon_clean(a);
    lemma_clean_id(c);
    let hc = host_canon(host);
    let dec = dec_str(port as nat);
    lemma_dec_str(port as nat);
    lemma_digits_clean(dec);
    lemma_host_canon_shape(host);
    lemma_host_canon_colon_parts(host);
    // the colon-separated parts of the whole text
    lemma_split1_concat(hc, dec, COLON);
    lemma_no_byte_not_has(dec, COLON);
    lemma_split1_whole(dec, COLON);
    let hparts = spec_split1(hc, COLON);
    let parts = spec_split1(c, COLON);
    assert(parts =~= hparts + seq![dec]);
    assert forall|i: int| 0 <= i < parts.len() implies #[trigger] parts[i].len() >= 1 by {
        if i < hparts.len() {
            assert(parts[i] == hparts[i]);
        } else {
            assert(parts[i] == dec);
        }
    }
    lemma_nonempty_parts_shape(c);
    lemma_split2_whole(c);
    let segs = spec_split2(c);
    assert(segs =~= seq![c]);
    assert(!gpib_match(segs));
    assert(!visa_socket_match(segs));
    assert(!vxi_match(segs));
    // the socket grammar: trimmed parts, the last as port, the rest rejoined
    let trimmed = parts.map_values(|p: Seq<u8>| spec_trim(p));
    assert(trimmed =~= parts) by {
        assert forall|i: int| 0 <= i < parts.len() implies trimmed[i] == parts[i] by {
            if i < hparts.len() {
                assert(parts[i] == hparts[i]);
                assert(all_clean(hparts[i]));
                lemma_trim_id(parts[i]);
            } else {
                assert(parts[i] == dec);
                lemma_trim_id(dec);
            }
        }
    }
    assert(trimmed.last() == dec);
    assert(trimmed.drop_last() =~= hparts);
    lemma_port_reparse(port);
    lemma_join1_split1(hc, COLON);
    lemma_resolve_canon(tok, m, host);
    assert(spec_socket(c, m) == Ok::<SockSpec, ParseErrSpec>(SockSpec { host, port }));
}

/// Idempotent canonicalization: re-parsing the canonical text of any
/// accepted address yields the same address, under any colon-free machine
/// name — as every real hostname is. (A machine actually named like the
/// canonical text of an IPv6 literal would alias back to loopback.)
pub proof fn lemma_canonical_round_trip(input: Seq<u8>, machine: Seq<u8>, a: AddrSpec)
    requires
        spec_parse(input, machine) == Ok::<AddrSpec, ParseErrSpec>(a),
        no_byte(machine, COLON),
    ensures
        spec_parse(canon_bytes(a), machine) == Ok::<AddrSpec, ParseErrSpec>(a),
{
    let t = spec_normalize(input);
    let segs = spec_split2(t);
    match a {
        AddrSpec::Gpib { board, primary } => {
            assert(gpib_match(segs) && spec_gpib(segs) == Ok::<AddrSpec, ParseErrSpec>(a));
            lemma_board_of_digits(segs[0], gpib_lit());
            lemma_gpib_reparse(board, primary, machine);
        },
        AddrSpec::VisaSocket { board, host, port } => {
            assert(visa_socket_match(segs) && spec_visa_socket(segs, machine) == Ok::<
                AddrSpec,
                ParseErrSpec,
            >(a));
            assert(spec_resolve(segs[1], machine) == Ok::<HostSpec, ParseErrSpec>(host));
            lemma_board_of_digits(segs[0], tcpip_lit());
            lemma_visa_socket_reparse(segs[1], machine, board, host, port);
        },
        AddrSpec::Vxi { board, host } => {
            assert(vxi_match(segs) && spec_vxi(segs, machine) == Ok::<AddrSpec, ParseErrSpec>(a));
            assert(spec_resolve(segs[1], machine) == Ok::<HostSpec, ParseErrSpec>(host));
            lemma_board_of_digits(segs[0], tcpip_lit());
            lemma_vxi_reparse(segs[1], machine, board, host);
        },
        AddrSpec::Sock { host, port } => {
            assert(spec_socket(t, machine) == Ok::<SockSpec, ParseErrSpec>(
                SockSpec { host, port },
            ));
            let parts = spec_split1(t, COLON).map_values(|p: Seq<u8>| spec_trim(p));
            let hosttok = spec_join1(parts.drop_last(), COLON);
            assert(spec_resolve(hosttok, machine) == Ok::<HostSpec, ParseErrSpec>(host));
            lemma_sock_reparse(hosttok, machine, host, port);
        },
    }
}

/// The IPv4 loopback host.
pub open spec fn loopback() -> HostSpec {
    HostSpec::V4 { o1: 127, o2: 0, o3: 0, o4: 1 }
}

/// A token of four dot-separated octet-like segments, as the relaxed IPv4
/// rule accepts them.
pub open spec fn dotted_quad_like(t: Seq<u8>) -> bool {
    spec_split1(t, DOT).len() == 4 && (forall|i: int|
        0 <= i < 4 ==> is_u8_token(#[trigger] spec_split1(t, DOT)[i]))
}

/// The loopback aliases: `localhost` and `::1` resolve to 127.0.0.1 under
/// any machine name, and the machine's own name does too — provided it is
/// not itself shaped like a dotted numeric literal, which no hostname is.
pub proof fn lemma_loopback_aliases(machine: Seq<u8>)
    ensures
        spec_resolve(localhost_bytes(), machine) == Ok::<HostSpec, ParseErrSpec>(loopback()),
        spec_resolve(colon_colon_one(), machine) == Ok::<HostSpec, ParseErrSpec>(loopback()),
        spec_trim(machine) == machine && !dotted_quad_like(lower_seq(machine)) ==> spec_resolve(
            machine,
            machine,
        ) == Ok::<HostSpec, ParseErrSpec>(loopback()),
{
    let lh = localhost_bytes();
    assert forall|i: int| 0 <= i < lh.len() implies is_clean(#[trigger] lh[i]) && lh[i] != DOT by {
        if i == 0 {
        } else if i == 1 {
        } else if i == 2 {
        } else if i == 3 {
        } else if i == 4 {
        } else if i == 5 {
        } else if i == 6 {
        } else if i == 7 {
        } else {
        }
    }
    lemma_clean_id(lh);
    lemma_no_byte_not_has(lh, DOT);
    lemma_split1_whole(lh, DOT);
    let cc1 = colon_colon_one();
    assert forall|i: int| 0 <= i < cc1.len() implies is_clean(#[trigger] cc1[i]) && cc1[i]
        != DOT by {
        if i == 0 {
        } else if i == 1 {
        } else {
        }
    }
    lemma_clean_id(cc1);
    lemma_no_byte_not_has(cc1, DOT);
    lemma_split1_whole(cc1, DOT);
    assert(lh != cc1) by {
        assert(lh.len() == 9 && cc1.len() == 3);
    }
    if spec_trim(machine) == machine && !dotted_quad_like(lower_seq(machine)) {
        let t = lower_seq(machine);
        assert(resolve_norm(t, t) == Ok::<HostSpec, ParseErrSpec>(loopback()));
    }
}

/// Socket fallback failures: a string without a colon is a format error;
/// one with a colon but no double colon whose final segment is not a port
/// number is a port error naming that segment.
pub proof fn lemma_socket_errors(input: Seq<u8>, machine: Seq<u8>)
    ensures
        !has_byte(spec_normalize(input), COLON) ==> spec_parse(input, machine) == Err::<
            AddrSpec,
            ParseErrSpec,
        >(ParseErrSpec::Format),
        (has_byte(spec_normalize(input), COLON) && !has_sep2(spec_normalize(input))
            && spec_parse_port(
            spec_trim(spec_split1(spec_normalize(input), COLON).last()),
        ) is None) ==> spec_parse(input, machine) == Err::<AddrSpec, ParseErrSpec>(
            ParseErrSpec::Port {
                token: spec_trim(spec_split1(spec_normalize(input), COLON).last()),
            },
        ),
{
    let t = spec_normalize(input);
    if !has_byte(t, COLON) {
        assert(!has_sep2(t)) by {
            if has_sep2(t) {
                let k = choose|k: int|
                    0 <= k && k + 2 <= t.len() && t[k] == COLON && t[#[trigger] (k + 1)] == COLON;
                assert(t[k] == COLON);
            }
        }
        lemma_split2_whole(t);
        lemma_split1_whole(t, COLON);
        let segs = spec_split2(t);
        assert(segs == seq![t]);
        assert(!gpib_match(segs) && !visa_socket_match(segs) && !vxi_match(segs));
        let parts = spec_split1(t, COLON).map_values(|p: Seq<u8>| spec_trim(p));
        assert(parts.len() == 1);
    } else if !has_sep2(t) && spec_parse_port(spec_trim(spec_split1(t, COLON).last())) is None {
        lemma_split2_whole(t);
        let segs = spec_split2(t);
        assert(segs == seq![t]);
        assert(!gpib_match(segs) && !visa_socket_match(segs) && !vxi_match(segs));
        let raw = spec_split1(t, COLON);
        assert(raw.len() >= 2) by {
            let k = choose|k: int| 0 <= k < t.len() && t[k] == COLON;
            if find1(t, 0, COLON) == -1 {
                crate::text::lemma_find1_complete(t, 0, COLON);
                assert(t[k] != COLON);
            }
            crate::text::lemma_find1_bounds(t, 0, COLON);
            let j = find1(t, 0, COLON);
            assert(0 <= j < t.len());
            assert(raw == seq![t.take(j)] + spec_split1(t.skip(j + 1), COLON));
            assert(spec_split1(t.skip(j + 1), COLON).len() >= 1);
        }
        let parts = raw.map_values(|p: Seq<u8>| spec_trim(p));
        assert(parts.last() == spec_trim(raw.last()));
    }
}

/// The board the grammar extracts is a nonempty run of digits.
proof fn lemma_board_of_digits(seg: Seq<u8>, lit: Seq<u8>)
    requires
        head_matches(seg, lit),
    ensures
        digits1(board_of(seg, lit)),
{
    if seg.len() == lit.len() {
        assert(is_digit(48));
        assert forall|i: int| 0 <= i < seq![48u8].len() implies is_digit(#[trigger] seq![48u8][i])
            by {}
    }
}

} // verus!
