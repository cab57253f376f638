//! Byte-level text helpers shared by the address grammar: normalization
//! (whitespace removal and ASCII lowercasing), separator splitting, and
//! decimal / hexadecimal numerals with their round-trip laws.

use vstd::prelude::*;

verus! {

pub const COLON: u8 = 58;
pub const DOT: u8 = 46;

/// ASCII whitespace: the characters removed when an address is normalized.
pub open spec fn is_ws(b: u8) -> bool {
    b == 32 || b == 9 || b == 10 || b == 11 || b == 12 || b == 13
}

pub open spec fn is_digit(b: u8) -> bool {
    48 <= b <= 57
}

pub open spec fn is_upper(b: u8) -> bool {
    65 <= b <= 90
}

pub open spec fn is_lower(b: u8) -> bool {
    97 <= b <= 122
}

pub open spec fn to_lower(b: u8) -> u8 {
    if is_upper(b) {
        (b + 32) as u8
    } else {
        b
    }
}

pub open spec fn all_digits(s: Seq<u8>) -> bool {
    forall|i: int| 0 <= i < s.len() ==> is_digit(#[trigger] s[i])
}

/// The normal form of an address: whitespace removed, letters lowercased.
pub open spec fn spec_normalize(s: Seq<u8>) -> Seq<u8>
    decreases s.len(),
{
    if s.len() == 0 {
        Seq::empty()
    } else if is_ws(s.last()) {
        spec_normalize(s.drop_last())
    } else {
        spec_normalize(s.drop_last()).push(to_lower(s.last()))
    }
}

/// A sequence without whitespace or upper-case letters is its own normal form.
pub proof fn lemma_normalize_id(s: Seq<u8>)
    requires
        forall|i: int| 0 <= i < s.len() ==> !is_ws(#[trigger] s[i]) && !is_upper(s[i]),
    ensures
        spec_normalize(s) == s,
    decreases s.len(),
{
    if s.len() > 0 {
        lemma_normalize_id(s.drop_last());
        assert(spec_normalize(s) =~= s);
    } else {
        assert(spec_normalize(s) =~= s);
    }
}

pub fn is_ws_byte(b: u8) -> (r: bool)
    ensures
        r == is_ws(b),
{
    b == 32 || b == 9 || b == 10 || b == 11 || b == 12 || b == 13
}

pub fn normalize(v: &Vec<u8>) -> (r: Vec<u8>)
    ensures
        r@ == spec_normalize(v@),
{
    let mut out: Vec<u8> = Vec::new();
    let mut i: usize = 0;
    while i < v.len()
        invariant
            i <= v.len(),
            out@ == spec_normalize(v@.take(i as int)),
        decreases v.len() - i,
    {
        let b = v[i];
        proof {
            assert(v@.take(i + 1).drop_last() =~= v@.take(i as int));
            assert(v@.take(i + 1).last() == v@[i as int]);
        }
        if !is_ws_byte(b) {
            let low = if 65 <= b && b <= 90 {
                b + 32
            } else {
                b
            };
            out.push(low);
        }
        i = i + 1;
    }
    proof {
        assert(v@.take(v@.len() as int) =~= v@);
    }
    out
}

/// Copy of `v[from..to]`.
pub fn subvec(v: &Vec<u8>, from: usize, to: usize) -> (r: Vec<u8>)
    requires
        from <= to <= v@.len(),
    ensures
        r@ == v@.subrange(from as int, to as int),
{
    let mut out: Vec<u8> = Vec::new();
    let mut i: usize = from;
    while i < to
        invariant
            from <= i <= to <= v@.len(),
            out@ == v@.subrange(from as int, i as int),
        decreases to - i,
    {
        out.push(v[i]);
        proof {
            assert(v@.subrange(from as int, i + 1) =~= v@.subrange(from as int, i as int).push(
                v@[i as int],
            ));
        }
        i = i + 1;
    }
    out
}

pub fn bytes_eq(a: &Vec<u8>, b: &Vec<u8>) -> (r: bool)
    ensures
        r == (a@ == b@),
{
    if a.len() != b.len() {
        proof {
            assert(a@ != b@);
        }
        return false;
    }
    let mut i: usize = 0;
    while i < a.len()
        invariant
            i <= a@.len(),
            a@.len() == b@.len(),
            forall|k: int| 0 <= k < i ==> a@[k] == b@[k],
        decreases a.len() - i,
    {
        if a[i] != b[i] {
            return false;
        }
        i = i + 1;
    }
    proof {
        assert(a@ =~= b@);
    }
    true
}

/// First position at or after `i` where two consecutive colons stand, or -1.
pub open spec fn find2(s: Seq<u8>, i: int) -> int
    decreases s.len() - i when 0 <= i
{
    if i + 2 > s.len() {
        -1
    } else if s[i] == COLON && s[i + 1] == COLON {
        i
    } else {
        find2(s, i + 1)
    }
}

pub proof fn lemma_find2_at(s: Seq<u8>, i: int, j: int)
    requires
        0 <= i <= j,
        j + 2 <= s.len(),
        s[j] == COLON && s[j + 1] == COLON,
        forall|k: int| i <= k < j ==> !(s[k] == COLON && s[#[trigger] (k + 1)] == COLON),
    ensures
        find2(s, i) == j,
    decreases j - i,
{
    if i < j {
        lemma_find2_at(s, i + 1, j);
    }
}

pub proof fn lemma_find2_none(s: Seq<u8>, i: int)
    requires
        0 <= i,
        forall|k: int|
            i <= k && k + 2 <= s.len() ==> !(s[k] == COLON && s[#[trigger] (k + 1)] == COLON),
    ensures
        find2(s, i) == -1,
    decreases s.len() - i,
{
    if i + 2 <= s.len() {
        lemma_find2_none(s, i + 1);
    }
}

pub proof fn lemma_find2_complete(s: Seq<u8>, i: int)
    requires
        0 <= i,
        find2(s, i) == -1,
    ensures
        forall|k: int|
            i <= k && k + 2 <= s.len() ==> !(s[k] == COLON && s[#[trigger] (k + 1)] == COLON),
    decreases s.len() - i,
{
    if i + 2 <= s.len() {
        assert(!(s[i] == COLON && s[i + 1] == COLON));
        lemma_find2_complete(s, i + 1);
    }
}

/// Greedy split on double colons: `a::b::c` gives `[a, b, c]`.
pub open spec fn spec_split2(s: Seq<u8>) -> Seq<Seq<u8>>
    decreases s.len(),
{
    let j = find2(s, 0);
    if j < 0 || j + 2 > s.len() {
        seq![s]
    } else {
        seq![s.take(j)] + spec_split2(s.skip(j + 2))
    }
}

pub open spec fn has_sep2(s: Seq<u8>) -> bool {
    exists|k: int| 0 <= k && k + 2 <= s.len() && s[k] == COLON && s[#[trigger] (k + 1)] == COLON
}

pub proof fn lemma_split2_whole(s: Seq<u8>)
    requires
        !has_sep2(s),
    ensures
        spec_split2(s) == seq![s],
{
    lemma_find2_none(s, 0);
}

pub proof fn lemma_split2_append(a: Seq<u8>, b: Seq<u8>)
    requires
        !has_sep2(a),
        a.len() == 0 || a.last() != COLON,
    ensures
        spec_split2(a + seq![COLON, COLON] + b) == seq![a] + spec_split2(b),
{
    let c = a + seq![COLON, COLON] + b;
    assert(c.len() == a.len() + 2 + b.len());
    assert(c[a.len() as int] == COLON && c[a.len() + 1 as int] == COLON);
    assert forall|k: int| 0 <= k < a.len() implies !(c[k] == COLON && c[#[trigger] (k + 1)]
        == COLON) by {
        if k + 1 < a.len() {
            assert(c[k] == a[k] && c[k + 1] == a[k + 1]);
        } else {
            assert(c[k] == a[k] && a[k] == a.last());
        }
    }
    lemma_find2_at(c, 0, a.len() as int);
    assert(c.take(a.len() as int) =~= a);
    assert(c.skip(a.len() + 2 as int) =~= b);
}

/// First position at or after `i` holding the byte `sep`, or -1.
pub open spec fn find1(s: Seq<u8>, i: int, sep: u8) -> int
    decreases s.len() - i when 0 <= i
{
    if i >= s.len() {
        -1
    } else if s[i] == sep {
        i
    } else {
        find1(s, i + 1, sep)
    }
}

pub proof fn lemma_find1_at(s: Seq<u8>, i: int, j: int, sep: u8)
    requires
        0 <= i <= j < s.len(),
        s[j] == sep,
        forall|k: int| i <= k < j ==> s[k] != sep,
    ensures
        find1(s, i, sep) == j,
    decreases j - i,
{
    if i < j {
        lemma_find1_at(s, i + 1, j, sep);
    }
}

pub proof fn lemma_find1_none(s: Seq<u8>, i: int, sep: u8)
    requires
        0 <= i,
        forall|k: int| i <= k < s.len() ==> s[k] != sep,
    ensures
        find1(s, i, sep) == -1,
    decreases s.len() - i,
{
    if i < s.len() {
        lemma_find1_none(s, i + 1, sep);
    }
}

/// Split on a single byte: `a.b.c` on `.` gives `[a, b, c]`.
pub open spec fn spec_split1(s: Seq<u8>, sep: u8) -> Seq<Seq<u8>>
    decreases s.len(),
{
    let j = find1(s, 0, sep);
    if j < 0 || j >= s.len() {
        seq![s]
    } else {
        seq![s.take(j)] + spec_split1(s.skip(j + 1), sep)
    }
}

pub open spec fn has_byte(s: Seq<u8>, sep: u8) -> bool {
    exists|k: int| 0 <= k < s.len() && s[k] == sep
}

pub proof fn lemma_split1_whole(s: Seq<u8>, sep: u8)
    requires
        !has_byte(s, sep),
    ensures
        spec_split1(s, sep) == seq![s],
{
    lemma_find1_none(s, 0, sep);
}

pub proof fn lemma_split1_append(a: Seq<u8>, b: Seq<u8>, sep: u8)
    requires
        !has_byte(a, sep),
    ensures
        spec_split1(a + seq![sep] + b, sep) == seq![a] + spec_split1(b, sep),
{
    let c = a + seq![sep] + b;
    assert(c[a.len() as int] == sep);
    assert forall|k: int| 0 <= k < a.len() implies c[k] != sep by {
        assert(c[k] == a[k]);
    }
    lemma_find1_at(c, 0, a.len() as int, sep);
    assert(c.take(a.len() as int) =~= a);
    assert(c.skip(a.len() + 1 as int) =~= b);
}

pub proof fn lemma_find1_complete(s: Seq<u8>, i: int, sep: u8)
    requires
        0 <= i,
        find1(s, i, sep) == -1,
    ensures
        forall|k: int| i <= k < s.len() ==> s[k] != sep,
    decreases s.len() - i,
{
    if i < s.len() {
        assert(s[i] != sep);
        lemma_find1_complete(s, i + 1, sep);
    }
}

/// A byte property that holds inside every part of a split holds of every
/// byte of the whole, separators aside.
pub proof fn lemma_split1_pred(s: Seq<u8>, sep: u8, p: spec_fn(u8) -> bool)
    requires
        forall|i: int, k: int|
            0 <= i < spec_split1(s, sep).len() && 0 <= k < spec_split1(s, sep)[i].len() ==> p(
                #[trigger] spec_split1(s, sep)[i][k],
            ),
    ensures
        forall|i: int| 0 <= i < s.len() ==> p(#[trigger] s[i]) || s[i] == sep,
    decreases s.len(),
{
    let parts = spec_split1(s, sep);
    let j = find1(s, 0, sep);
    if j < 0 || j >= s.len() {
        assert forall|i: int| 0 <= i < s.len() implies p(#[trigger] s[i]) || s[i] == sep by {
            assert(parts[0] == s);
            assert(p(parts[0][i]));
        }
    } else {
        lemma_find1_bounds(s, 0, sep);
        let rest = s.skip(j + 1);
        let rparts = spec_split1(rest, sep);
        assert forall|i: int, k: int|
            0 <= i < rparts.len() && 0 <= k < rparts[i].len() implies p(
            #[trigger] rparts[i][k],
        ) by {
            assert(rparts[i] == parts[i + 1]);
            assert(p(parts[i + 1][k]));
        }
        lemma_split1_pred(rest, sep, p);
        assert forall|i: int| 0 <= i < s.len() implies p(#[trigger] s[i]) || s[i] == sep by {
            if i < j {
                assert(parts[0] == s.take(j));
                assert(s[i] == parts[0][i]);
                assert(p(parts[0][i]));
            } else if i > j {
                assert(s[i] == rest[i - j - 1]);
            }
        }
    }
}

pub proof fn lemma_find1_prefix(s: Seq<u8>, i: int, sep: u8)
    requires
        0 <= i,
        find1(s, i, sep) >= i,
    ensures
        forall|k: int| i <= k < find1(s, i, sep) ==> s[k] != sep,
    decreases s.len() - i,
{
    if i < s.len() && s[i] != sep {
        lemma_find1_bounds(s, i + 1, sep);
        lemma_find1_prefix(s, i + 1, sep);
    }
}

/// Splitting distributes over a separator wherever it stands.
pub proof fn lemma_split1_concat(a: Seq<u8>, b: Seq<u8>, sep: u8)
    ensures
        spec_split1(a + seq![sep] + b, sep) == spec_split1(a, sep) + spec_split1(b, sep),
    decreases a.len(),
{
    let j = find1(a, 0, sep);
    if j < 0 || j >= a.len() {
        lemma_find1_bounds(a, 0, sep);
        lemma_find1_complete(a, 0, sep);
        lemma_split1_append(a, b, sep);
        assert(spec_split1(a, sep) == seq![a]) by {
            lemma_find1_none(a, 0, sep);
        }
    } else {
        lemma_find1_bounds(a, 0, sep);
        lemma_find1_prefix(a, 0, sep);
        let c = a + seq![sep] + b;
        assert forall|k: int| 0 <= k < j implies c[k] != sep by {
            assert(c[k] == a[k]);
        }
        assert(c[j] == a[j]);
        lemma_find1_at(c, 0, j, sep);
        assert(c.take(j) =~= a.take(j));
        assert(c.skip(j + 1) =~= a.skip(j + 1) + seq![sep] + b);
        lemma_split1_concat(a.skip(j + 1), b, sep);
    }
}

/// A string whose colon-separated parts are all nonempty has no empty run:
/// no doubled colon, and no colon at either end.
pub proof fn lemma_nonempty_parts_shape(s: Seq<u8>)
    requires
        forall|i: int|
            0 <= i < spec_split1(s, COLON).len() ==> #[trigger] spec_split1(s, COLON)[i].len()
                >= 1,
    ensures
        !has_sep2(s),
        s.len() >= 1,
        s[0] != COLON,
        s.last() != COLON,
    decreases s.len(),
{
    let parts = spec_split1(s, COLON);
    let j = find1(s, 0, COLON);
    assert(parts[0].len() >= 1);
    lemma_find1_bounds(s, 0, COLON);
    if j < 0 || j >= s.len() {
        assert(j == -1);
        lemma_find1_complete(s, 0, COLON);
        assert(parts[0] == s);
        assert forall|k: int| 0 <= k && k + 2 <= s.len() implies !(s[k] == COLON && s[#[trigger] (
        k + 1)] == COLON) by {}
    } else {
        lemma_find1_bounds(s, 0, COLON);
        lemma_find1_prefix(s, 0, COLON);
        assert(parts[0] == s.take(j));
        assert(j >= 1);
        let rest = s.skip(j + 1);
        let rparts = spec_split1(rest, COLON);
        assert forall|i: int| 0 <= i < rparts.len() implies #[trigger] rparts[i].len() >= 1 by {
            assert(rparts[i] == parts[i + 1]);
            assert(parts[i + 1].len() >= 1);
        }
        lemma_nonempty_parts_shape(rest);
        assert(s[0] == s.take(j)[0]);
        assert(s.last() == rest.last());
        assert forall|k: int| 0 <= k && k + 2 <= s.len() implies !(s[k] == COLON && s[#[trigger] (
        k + 1)] == COLON) by {
            if k + 1 < j {
                assert(s[k] != COLON);
            } else if k + 1 == j {
                assert(s[k] != COLON);
            } else if k == j {
                assert(s[k + 1] == rest[0]);
            } else {
                assert(s[k] == rest[k - j - 1] && s[k + 1] == rest[k - j]);
                assert(!has_sep2(rest));
                assert(!(rest[k - j - 1] == COLON && rest[#[trigger] (k - j - 1 + 1)] == COLON));
            }
        }
    }
}

/// Joining with `sep` undoes `spec_split1`.
pub open spec fn spec_join1(parts: Seq<Seq<u8>>, sep: u8) -> Seq<u8>
    decreases parts.len(),
{
    if parts.len() == 0 {
        Seq::empty()
    } else if parts.len() == 1 {
        parts[0]
    } else {
        parts[0] + seq![sep] + spec_join1(parts.drop_first(), sep)
    }
}

pub proof fn lemma_join1_split1(s: Seq<u8>, sep: u8)
    ensures
        spec_join1(spec_split1(s, sep), sep) == s,
    decreases s.len(),
{
    let j = find1(s, 0, sep);
    if j < 0 || j >= s.len() {
    } else {
        lemma_find1_bounds(s, 0, sep);
        let rest = s.skip(j + 1);
        lemma_join1_split1(rest, sep);
        let parts = spec_split1(s, sep);
        assert(parts.drop_first() =~= spec_split1(rest, sep));
        assert(s.take(j) + seq![sep] + rest =~= s);
    }
}

/// A byte property that holds of the separator and inside every part holds
/// of every byte of their join.
pub proof fn lemma_join1_pred(parts: Seq<Seq<u8>>, sep: u8, p: spec_fn(u8) -> bool)
    requires
        p(sep),
        forall|i: int, k: int|
            0 <= i < parts.len() && 0 <= k < parts[i].len() ==> p(#[trigger] parts[i][k]),
    ensures
        forall|i: int|
            0 <= i < spec_join1(parts, sep).len() ==> p(#[trigger] spec_join1(parts, sep)[i]),
    decreases parts.len(),
{
    let j = spec_join1(parts, sep);
    if parts.len() == 1 {
        assert forall|i: int| 0 <= i < j.len() implies p(#[trigger] j[i]) by {
            assert(j[i] == parts[0][i]);
        }
    } else if parts.len() > 1 {
        let rest = parts.drop_first();
        assert forall|i: int, k: int|
            0 <= i < rest.len() && 0 <= k < rest[i].len() implies p(#[trigger] rest[i][k]) by {
            assert(rest[i] == parts[i + 1]);
            assert(p(parts[i + 1][k]));
        }
        lemma_join1_pred(rest, sep, p);
        let rj = spec_join1(rest, sep);
        assert forall|i: int| 0 <= i < j.len() implies p(#[trigger] j[i]) by {
            if i < parts[0].len() {
                assert(j[i] == parts[0][i]);
            } else if i == parts[0].len() {
                assert(j[i] == sep);
            } else {
                assert(j[i] == rj[i - parts[0].len() - 1]);
            }
        }
    }
}

/// Splitting undoes joining, for separator-free parts.
pub proof fn lemma_split1_join(parts: Seq<Seq<u8>>, sep: u8)
    requires
        parts.len() >= 1,
        forall|i: int, k: int|
            0 <= i < parts.len() && 0 <= k < parts[i].len() ==> #[trigger] parts[i][k] != sep,
    ensures
        spec_split1(spec_join1(parts, sep), sep) == parts,
    decreases parts.len(),
{
    if parts.len() == 1 {
        assert(spec_join1(parts, sep) == parts[0]);
        assert(!has_byte(parts[0], sep)) by {
            assert forall|k: int| 0 <= k < parts[0].len() implies parts[0][k] != sep by {}
        }
        lemma_split1_whole(parts[0], sep);
        assert(seq![parts[0]] =~= parts);
    } else {
        let rest = parts.drop_first();
        assert forall|i: int, k: int|
            0 <= i < rest.len() && 0 <= k < rest[i].len() implies #[trigger] rest[i][k] != sep by {
            assert(rest[i] == parts[i + 1]);
        }
        lemma_split1_join(rest, sep);
        assert(!has_byte(parts[0], sep)) by {
            assert forall|k: int| 0 <= k < parts[0].len() implies parts[0][k] != sep by {}
        }
        lemma_split1_append(parts[0], spec_join1(rest, sep), sep);
        assert(seq![parts[0]] + rest =~= parts);
    }
}

pub proof fn lemma_find1_bounds(s: Seq<u8>, i: int, sep: u8)
    requires
        0 <= i,
    ensures
        find1(s, i, sep) == -1 || (i <= find1(s, i, sep) < s.len() && s[find1(s, i, sep)] == sep),
    decreases s.len() - i,
{
    if i < s.len() && s[i] != sep {
        lemma_find1_bounds(s, i + 1, sep);
    }
}

pub proof fn lemma_find2_bounds(s: Seq<u8>, i: int)
    requires
        0 <= i,
    ensures
        find2(s, i) == -1 || (i <= find2(s, i) && find2(s, i) + 2 <= s.len() && s[find2(s, i)]
            == COLON && s[find2(s, i) + 1] == COLON),
    decreases s.len() - i,
{
    if i + 2 <= s.len() && !(s[i] == COLON && s[i + 1] == COLON) {
        lemma_find2_bounds(s, i + 1);
    }
}

// ---------------------------------------------------------------------------
// Decimal numerals
// ---------------------------------------------------------------------------
/// Value of a decimal digit string (meaningful when `all_digits` holds).
pub open spec fn dec_val(s: Seq<u8>) -> nat
    decreases s.len(),
{
    if s.len() == 0 {
        0
    } else {
        (dec_val(s.drop_last()) * 10 + (s.last() - 48)) as nat
    }
}

/// Decimal numeral of `n`, without leading zeros.
pub open spec fn dec_str(n: nat) -> Seq<u8>
    decreases n,
{
    if n < 10 {
        seq![(48 + n) as u8]
    } else {
        dec_str(n / 10).push((48 + n % 10) as u8)
    }
}

pub proof fn lemma_dec_str(n: nat)
    ensures
        all_digits(dec_str(n)),
        dec_str(n).len() >= 1,
        dec_val(dec_str(n)) == n,
        dec_str(n)[0] != 48 || n == 0,
    decreases n,
{
    if n < 10 {
        assert(dec_str(n).drop_last() =~= Seq::<u8>::empty());
        assert(dec_val(Seq::<u8>::empty()) == 0);
    } else {
        lemma_dec_str(n / 10);
        let s = dec_str(n);
        assert(s.drop_last() =~= dec_str(n / 10));
        assert forall|i: int| 0 <= i < s.len() implies is_digit(#[trigger] s[i]) by {
            if i < s.len() - 1 {
                assert(s[i] == dec_str(n / 10)[i]);
            }
        }
        vstd::arithmetic::div_mod::lemma_fundamental_div_mod(n as int, 10);
    }
}

pub fn is_digits(v: &Vec<u8>) -> (r: bool)
    ensures
        r == all_digits(v@),
{
    let mut i: usize = 0;
    while i < v.len()
        invariant
            i <= v@.len(),
            forall|k: int| 0 <= k < i ==> is_digit(#[trigger] v@[k]),
        decreases v.len() - i,
    {
        if v[i] < 48 || v[i] > 57 {
            return false;
        }
        i = i + 1;
    }
    true
}

/// Value of a digit string, saturated at `limit + 1` to signal overflow.
pub fn dec_value_capped(v: &Vec<u8>, limit: u32) -> (r: u64)
    requires
        all_digits(v@),
    ensures
        r == if dec_val(v@) > limit {
            (limit + 1) as nat
        } else {
            dec_val(v@)
        },
{
    let mut acc: u64 = 0;
    let mut i: usize = 0;
    while i < v.len()
        invariant
            i <= v@.len(),
            all_digits(v@),
            acc == if dec_val(v@.take(i as int)) > limit {
                (limit + 1) as nat
            } else {
                dec_val(v@.take(i as int))
            },
            acc <= limit + 1,
        decreases v.len() - i,
    {
        let d = v[i];
        proof {
            assert(is_digit(v@[i as int]));
            assert(v@.take(i + 1).drop_last() =~= v@.take(i as int));
            assert(v@.take(i + 1).last() == v@[i as int]);
        }
        let next = acc * 10 + (d - 48) as u64;
        acc = if next > limit as u64 {
            limit as u64 + 1
        } else {
            next
        };
        i = i + 1;
    }
    proof {
        assert(v@.take(v@.len() as int) =~= v@);
    }
    acc
}

/// Append the decimal numeral of `n`.
pub fn push_dec(out: &mut Vec<u8>, n: u32)
    ensures
        final(out)@ == old(out)@ + dec_str(n as nat),
    decreases n,
{
    if n < 10 {
        out.push((48 + n) as u8);
        proof {
            assert(final(out)@ =~= old(out)@ + dec_str(n as nat));
        }
    } else {
        push_dec(out, n / 10);
        out.push((48 + n % 10) as u8);
        proof {
            assert(final(out)@ =~= old(out)@ + dec_str(n as nat));
        }
    }
}

/// Signed decimal numeral: a minus sign before the magnitude.
pub open spec fn dec_str_int(v: int) -> Seq<u8> {
    if v < 0 {
        seq![45u8] + dec_str((-v) as nat)
    } else {
        dec_str(v as nat)
    }
}

/// Append the signed decimal numeral of `n`.
pub fn push_dec_i32(out: &mut Vec<u8>, n: i32)
    ensures
        final(out)@ == old(out)@ + dec_str_int(n as int),
{
    if n < 0 {
        out.push(45);
        let mag: u32 = (-(n as i64)) as u32;
        push_dec(out, mag);
        proof {
            assert(final(out)@ =~= old(out)@ + dec_str_int(n as int));
        }
    } else {
        push_dec(out, n as u32);
    }
}

// ---------------------------------------------------------------------------
// Hexadecimal numerals (lower case)
// ---------------------------------------------------------------------------
pub open spec fn is_hex_digit(b: u8) -> bool {
    is_digit(b) || (97 <= b <= 102)
}

pub open spec fn all_hex_digits(s: Seq<u8>) -> bool {
    forall|i: int| 0 <= i < s.len() ==> is_hex_digit(#[trigger] s[i])
}

pub open spec fn hex_digit_val(b: u8) -> nat {
    if is_digit(b) {
        (b - 48) as nat
    } else {
        (b - 87) as nat
    }
}

pub open spec fn hex_val(s: Seq<u8>) -> nat
    decreases s.len(),
{
    if s.len() == 0 {
        0
    } else {
        hex_val(s.drop_last()) * 16 + hex_digit_val(s.last())
    }
}

pub open spec fn hex_digit(d: nat) -> u8 {
    if d < 10 {
        (48 + d) as u8
    } else {
        (87 + d) as u8
    }
}

/// Lower-case hexadecimal numeral of `n`, without leading zeros.
pub open spec fn hex_str(n: nat) -> Seq<u8>
    decreases n,
{
    if n < 16 {
        seq![hex_digit(n)]
    } else {
        hex_str(n / 16).push(hex_digit(n % 16))
    }
}

pub proof fn lemma_hex_str(n: nat)
    ensures
        all_hex_digits(hex_str(n)),
        hex_str(n).len() >= 1,
        hex_val(hex_str(n)) == n,
        n <= 0xffff ==> hex_str(n).len() <= 4,
    decreases n,
{
    lemma_pow16_small();
    if n < 16 {
        assert(hex_str(n).drop_last() =~= Seq::<u8>::empty());
        assert(hex_val(Seq::<u8>::empty()) == 0);
    } else {
        lemma_hex_str(n / 16);
        let s = hex_str(n);
        assert(s.drop_last() =~= hex_str(n / 16));
        assert forall|i: int| 0 <= i < s.len() implies is_hex_digit(#[trigger] s[i]) by {
            if i < s.len() - 1 {
                assert(s[i] == hex_str(n / 16)[i]);
            }
        }
        vstd::arithmetic::div_mod::lemma_fundamental_div_mod(n as int, 16);
        if n <= 0xffff {
            lemma_hex_str_len(n, 4);
        }
    }
}

proof fn lemma_pow16_small()
    ensures
        pow16(0) == 1,
        pow16(1) == 16,
        pow16(2) == 256,
        pow16(3) == 4096,
        pow16(4) == 65536,
{
    assert(pow16(0) == 1);
    assert(pow16(1) == 16);
    assert(pow16(2) == 256);
    assert(pow16(3) == 4096);
    assert(pow16(4) == 65536);
}

proof fn lemma_hex_str_len(n: nat, k: nat)
    requires
        k >= 1,
        n < pow16(k),
    ensures
        hex_str(n).len() <= k,
    decreases k,
{
    if n >= 16 {
        assert(pow16(k) == 16 * pow16((k - 1) as nat));
        vstd::arithmetic::div_mod::lemma_multiply_divide_lt(
            n as int,
            16,
            pow16((k - 1) as nat) as int,
        );
        lemma_hex_str_len(n / 16, (k - 1) as nat);
    }
}

pub fn is_hex_digits_vec(v: &Vec<u8>) -> (r: bool)
    ensures
        r == all_hex_digits(v@),
{
    let mut i: usize = 0;
    while i < v.len()
        invariant
            i <= v@.len(),
            forall|k: int| 0 <= k < i ==> is_hex_digit(#[trigger] v@[k]),
        decreases v.len() - i,
    {
        let b = v[i];
        if !((48 <= b && b <= 57) || (97 <= b && b <= 102)) {
            return false;
        }
        i = i + 1;
    }
    true
}

/// Value of a hex digit string of at most 4 digits.
pub fn hex_value4(v: &Vec<u8>) -> (r: u16)
    requires
        all_hex_digits(v@),
        1 <= v@.len() <= 4,
    ensures
        r == hex_val(v@),
{
    proof {
        lemma_hex_val_bound(v@);
    }
    let mut acc: u32 = 0;
    let mut i: usize = 0;
    while i < v.len()
        invariant
            i <= v@.len() <= 4,
            all_hex_digits(v@),
            acc == hex_val(v@.take(i as int)),
            acc <= 0xffff,
        decreases v.len() - i,
    {
        let d = v[i];
        proof {
            assert(is_hex_digit(v@[i as int]));
            assert(v@.take(i + 1).drop_last() =~= v@.take(i as int));
            assert(v@.take(i + 1).last() == v@[i as int]);
            lemma_hex_val_bound(v@.take(i + 1));
        }
        let dv: u32 = if d <= 57 {
            (d - 48) as u32
        } else {
            (d - 87) as u32
        };
        acc = acc * 16 + dv;
        i = i + 1;
    }
    proof {
        assert(v@.take(v@.len() as int) =~= v@);
    }
    acc as u16
}

/// At most 4 hex digits stay under 2^16.
pub proof fn lemma_hex_val_bound(s: Seq<u8>)
    requires
        all_hex_digits(s),
        s.len() <= 4,
    ensures
        hex_val(s) <= 0xffff,
{
    lemma_pow16_small();
    lemma_hex_val_bound_n(s, s.len());
}

proof fn lemma_hex_val_bound_n(s: Seq<u8>, n: nat)
    requires
        all_hex_digits(s),
        s.len() == n,
        n <= 4,
    ensures
        hex_val(s) < pow16(n),
    decreases n,
{
    if s.len() > 0 {
        let p = s.drop_last();
        assert forall|i: int| 0 <= i < p.len() implies is_hex_digit(#[trigger] p[i]) by {
            assert(p[i] == s[i]);
        }
        lemma_hex_val_bound_n(p, (n - 1) as nat);
        assert(is_hex_digit(s.last()));
        assert(hex_digit_val(s.last()) <= 15);
        assert(hex_val(s) == hex_val(p) * 16 + hex_digit_val(s.last()));
        assert(pow16(n) == 16 * pow16((n - 1) as nat));
        assert(hex_val(p) <= pow16((n - 1) as nat) - 1);
        assert(hex_val(p) * 16 <= (pow16((n - 1) as nat) - 1) * 16);
    }
}

pub open spec fn pow16(n: nat) -> nat
    decreases n,
{
    if n == 0 {
        1
    } else {
        16 * pow16((n - 1) as nat)
    }
}

/// Append the lower-case hexadecimal numeral of `n`.
pub fn push_hex(out: &mut Vec<u8>, n: u16)
    ensures
        final(out)@ == old(out)@ + hex_str(n as nat),
    decreases n,
{
    if n < 16 {
        let d: u8 = if n < 10 {
            (48 + n) as u8
        } else {
            (87 + n) as u8
        };
        out.push(d);
        proof {
            assert(final(out)@ =~= old(out)@ + hex_str(n as nat));
        }
    } else {
        push_hex(out, n / 16);
        let m = n % 16;
        let d: u8 = if m < 10 {
            (48 + m) as u8
        } else {
            (87 + m) as u8
        };
        out.push(d);
        proof {
            assert(final(out)@ =~= old(out)@ + hex_str(n as nat));
        }
    }
}

/// Every byte lowercased, nothing removed.
pub open spec fn lower_seq(s: Seq<u8>) -> Seq<u8> {
    Seq::new(s.len(), |i: int| to_lower(s[i]))
}

pub proof fn lemma_lower_id(s: Seq<u8>)
    requires
        forall|i: int| 0 <= i < s.len() ==> !is_upper(#[trigger] s[i]),
    ensures
        lower_seq(s) == s,
{
    assert(lower_seq(s) =~= s);
}

pub fn lower_vec(v: &Vec<u8>) -> (r: Vec<u8>)
    ensures
        r@ == lower_seq(v@),
{
    let mut out: Vec<u8> = Vec::new();
    let mut i: usize = 0;
    while i < v.len()
        invariant
            i <= v@.len(),
            out@.len() == i,
            forall|k: int| 0 <= k < i ==> out@[k] == to_lower(v@[k]),
        decreases v.len() - i,
    {
        let b = v[i];
        if 65 <= b && b <= 90 {
            out.push(b + 32);
        } else {
            out.push(b);
        }
        i = i + 1;
    }
    proof {
        assert(out@ =~= lower_seq(v@));
    }
    out
}

// ---------------------------------------------------------------------------
// Between bytes and strings
// ---------------------------------------------------------------------------
/// The characters of a run of ASCII bytes, one per byte.
pub open spec fn ascii_chars(bs: Seq<u8>) -> Seq<char> {
    Seq::new(bs.len(), |i: int| bs[i] as char)
}

pub open spec fn is_ascii_bytes(bs: Seq<u8>) -> bool {
    forall|i: int| 0 <= i < bs.len() ==> #[trigger] bs[i] < 128
}

pub proof fn lemma_digits_ascii(s: Seq<u8>)
    requires
        all_digits(s),
    ensures
        is_ascii_bytes(s),
{
}

pub proof fn lemma_ascii_app(a: Seq<u8>, b: Seq<u8>)
    requires
        is_ascii_bytes(a),
        is_ascii_bytes(b),
    ensures
        is_ascii_bytes(a + b),
{
    assert forall|i: int| 0 <= i < (a + b).len() implies #[trigger] (a + b)[i] < 128 by {
        if i < a.len() {
            assert((a + b)[i] == a[i]);
        } else {
            assert((a + b)[i] == b[i - a.len()]);
        }
    }
}

/// Relies on std's String::from_utf8: ASCII bytes are valid UTF-8 and decode
/// to exactly one character per byte, with the same code points.
#[verifier::external_body]
pub fn ascii_to_string(v: Vec<u8>) -> (r: String)
    requires
        is_ascii_bytes(v@),
    ensures
        r@ == ascii_chars(v@),
{
    String::from_utf8(v).unwrap_or_default()
}

/// Relies on std's String::from_utf8_lossy, which passes valid UTF-8 — in
/// particular ASCII — through unchanged and replaces invalid sequences.
#[verifier::external_body]
pub fn lossy_string(v: &Vec<u8>) -> (r: String)
    ensures
        is_ascii_bytes(v@) ==> r@ == ascii_chars(v@),
{
    String::from_utf8_lossy(v.as_slice()).into_owned()
}

// ---------------------------------------------------------------------------
// Trimming and executable splitting
// ---------------------------------------------------------------------------
pub open spec fn trim_start(s: Seq<u8>) -> Seq<u8>
    decreases s.len(),
{
    if s.len() > 0 && is_ws(s.first()) {
        trim_start(s.drop_first())
    } else {
        s
    }
}

pub open spec fn trim_end(s: Seq<u8>) -> Seq<u8>
    decreases s.len(),
{
    if s.len() > 0 && is_ws(s.last()) {
        trim_end(s.drop_last())
    } else {
        s
    }
}

/// Leading and trailing whitespace removed.
pub open spec fn spec_trim(s: Seq<u8>) -> Seq<u8> {
    trim_end(trim_start(s))
}

pub proof fn lemma_trim_id(s: Seq<u8>)
    requires
        forall|i: int| 0 <= i < s.len() ==> !is_ws(#[trigger] s[i]),
    ensures
        spec_trim(s) == s,
{
    if s.len() > 0 {
        assert(!is_ws(s.first()));
        assert(!is_ws(s.last()));
    }
}

pub fn trim(v: &Vec<u8>) -> (r: Vec<u8>)
    ensures
        r@ == spec_trim(v@),
{
    let mut from: usize = 0;
    proof {
        assert(v@.skip(0) =~= v@);
    }
    while from < v.len() && is_ws_byte(v[from])
        invariant
            from <= v@.len(),
            trim_start(v@) == trim_start(v@.skip(from as int)),
        decreases v.len() - from,
    {
        proof {
            assert(v@.skip(from as int).drop_first() =~= v@.skip(from + 1));
        }
        from = from + 1;
    }
    let mut to: usize = v.len();
    proof {
        assert(trim_start(v@.skip(from as int)) =~= v@.skip(from as int));
        assert(v@.subrange(from as int, v@.len() as int) =~= v@.skip(from as int));
    }
    while to > from && is_ws_byte(v[to - 1])
        invariant
            from <= to <= v@.len(),
            trim_end(v@.skip(from as int)) == trim_end(v@.subrange(from as int, to as int)),
        decreases to,
    {
        proof {
            assert(v@.subrange(from as int, to as int).drop_last() =~= v@.subrange(
                from as int,
                to - 1,
            ));
        }
        to = to - 1;
    }
    proof {
        assert(trim_end(v@.subrange(from as int, to as int)) =~= v@.subrange(
            from as int,
            to as int,
        ));
    }
    subvec(v, from, to)
}

pub fn find_sep2(v: &Vec<u8>) -> (r: Option<usize>)
    ensures
        match r {
            Some(j) => find2(v@, 0) == j as int,
            None => find2(v@, 0) == -1,
        },
{
    if v.len() < 2 {
        proof {
            lemma_find2_none(v@, 0);
        }
        return None;
    }
    let mut i: usize = 0;
    while i <= v.len() - 2
        invariant
            v@.len() >= 2,
            i <= v@.len(),
            forall|k: int| 0 <= k < i ==> !(v@[k] == COLON && v@[#[trigger] (k + 1)] == COLON),
        decreases v.len() - i,
    {
        if v[i] == 58 && v[i + 1] == 58 {
            proof {
                lemma_find2_at(v@, 0, i as int);
            }
            return Some(i);
        }
        i = i + 1;
    }
    proof {
        lemma_find2_none(v@, 0);
    }
    None
}

pub fn split2(v: &Vec<u8>) -> (r: Vec<Vec<u8>>)
    ensures
        r.deep_view() == spec_split2(v@),
        r@.len() >= 1,
    decreases v@.len(),
{
    match find_sep2(v) {
        None => {
            let mut r: Vec<Vec<u8>> = Vec::new();
            r.push(subvec(v, 0, v.len()));
            proof {
                assert(v@.subrange(0, v@.len() as int) =~= v@);
                assert(r.deep_view() =~~= seq![v@]);
            }
            r
        },
        Some(j) => {
            proof {
                lemma_find2_bounds(v@, 0);
            }
            let n = v.len();
            let head = subvec(v, 0, j);
            let tail = subvec(v, j + 2, n);
            let mut rest = split2(&tail);
            let mut r: Vec<Vec<u8>> = Vec::new();
            r.push(head);
            r.append(&mut rest);
            proof {
                assert(r.deep_view() =~~= seq![v@.take(j as int)] + spec_split2(
                    v@.skip(j + 2 as int),
                ));
            }
            r
        },
    }
}

pub fn find_sep1(v: &Vec<u8>, sep: u8) -> (r: Option<usize>)
    ensures
        match r {
            Some(j) => find1(v@, 0, sep) == j as int,
            None => find1(v@, 0, sep) == -1,
        },
{
    let mut i: usize = 0;
    while i < v.len()
        invariant
            i <= v@.len(),
            forall|k: int| 0 <= k < i ==> v@[k] != sep,
        decreases v.len() - i,
    {
        if v[i] == sep {
            proof {
                lemma_find1_at(v@, 0, i as int, sep);
            }
            return Some(i);
        }
        i = i + 1;
    }
    proof {
        lemma_find1_none(v@, 0, sep);
    }
    None
}

pub fn split1(v: &Vec<u8>, sep: u8) -> (r: Vec<Vec<u8>>)
    ensures
        r.deep_view() == spec_split1(v@, sep),
        r@.len() >= 1,
    decreases v@.len(),
{
    match find_sep1(v, sep) {
        None => {
            let mut r: Vec<Vec<u8>> = Vec::new();
            r.push(subvec(v, 0, v.len()));
            proof {
                assert(v@.subrange(0, v@.len() as int) =~= v@);
                assert(r.deep_view() =~~= seq![v@]);
            }
            r
        },
        Some(j) => {
            proof {
                lemma_find1_bounds(v@, 0, sep);
            }
            let n = v.len();
            let head = subvec(v, 0, j);
            let tail = subvec(v, j + 1, n);
            let mut rest = split1(&tail, sep);
            let mut r: Vec<Vec<u8>> = Vec::new();
            r.push(head);
            r.append(&mut rest);
            proof {
                assert(r.deep_view() =~~= seq![v@.take(j as int)] + spec_split1(
                    v@.skip(j + 1 as int),
                    sep,
                ));
            }
            r
        },
    }
}

/// Join parts with a single separator byte.
pub fn join1(parts: &Vec<Vec<u8>>, sep: u8) -> (r: Vec<u8>)
    ensures
        r@ == spec_join1(parts.deep_view(), sep),
    decreases parts@.len(),
{
    let mut out: Vec<u8> = Vec::new();
    let mut i: usize = 0;
    while i < parts.len()
        invariant
            i <= parts@.len(),
            out@ == spec_join1_prefix(parts.deep_view(), i as int, sep),
        decreases parts.len() - i,
    {
        if i > 0 {
            out.push(sep);
        }
        let part = &parts[i];
        let mut k: usize = 0;
        while k < part.len()
            invariant
                k <= part@.len(),
                i < parts@.len(),
                part == &parts[i as int],
                out@ == spec_join1_prefix(parts.deep_view(), i as int, sep) + (if i > 0 {
                    seq![sep]
                } else {
                    Seq::empty()
                }) + part@.take(k as int),
            decreases part.len() - k,
        {
            out.push(part[k]);
            proof {
                assert(part@.take(k + 1) =~= part@.take(k as int).push(part@[k as int]));
            }
            k = k + 1;
        }
        proof {
            assert(part@.take(part@.len() as int) =~= part@);
            lemma_join1_prefix_step(parts.deep_view(), i as int, sep);
        }
        i = i + 1;
    }
    proof {
        lemma_join1_prefix_all(parts.deep_view(), sep);
    }
    out
}

/// The join of the first `n` parts.
pub open spec fn spec_join1_prefix(parts: Seq<Seq<u8>>, n: int, sep: u8) -> Seq<u8>
    decreases n,
{
    if n <= 0 {
        Seq::empty()
    } else if n == 1 {
        parts[0]
    } else {
        spec_join1_prefix(parts, n - 1, sep) + seq![sep] + parts[n - 1]
    }
}

proof fn lemma_join1_prefix_step(parts: Seq<Seq<u8>>, i: int, sep: u8)
    requires
        0 <= i < parts.len(),
    ensures
        spec_join1_prefix(parts, i + 1, sep) == spec_join1_prefix(parts, i, sep) + (if i > 0 {
            seq![sep]
        } else {
            Seq::empty()
        }) + parts[i],
{
    if i == 0 {
        assert(spec_join1_prefix(parts, 1, sep) =~= Seq::empty() + Seq::empty() + parts[0]);
    }
}

proof fn lemma_join1_prefix_all(parts: Seq<Seq<u8>>, sep: u8)
    ensures
        spec_join1_prefix(parts, parts.len() as int, sep) == spec_join1(parts, sep),
    decreases parts.len(),
{
    if parts.len() > 1 {
        lemma_join1_prefix_all(parts.drop_first(), sep);
        lemma_join1_prefix_shift(parts, parts.len() as int - 1, sep);
        assert(spec_join1(parts, sep) == parts[0] + seq![sep] + spec_join1(
            parts.drop_first(),
            sep,
        ));
    }
}

proof fn lemma_join1_prefix_shift(parts: Seq<Seq<u8>>, n: int, sep: u8)
    requires
        parts.len() >= 1,
        1 <= n <= parts.len(),
    ensures
        spec_join1_prefix(parts, n, sep) == parts[0] + (if n > 1 {
            seq![sep] + spec_join1_prefix(parts.drop_first(), n - 1, sep)
        } else {
            Seq::empty()
        }),
    decreases n,
{
    if n == 1 {
        assert(spec_join1_prefix(parts, 1, sep) =~= parts[0] + Seq::empty());
    } else {
        lemma_join1_prefix_shift(parts, n - 1, sep);
        assert(parts.drop_first()[n - 2] == parts[n - 1]);
        if n - 1 == 1 {
            assert(spec_join1_prefix(parts, n, sep) =~= parts[0] + (seq![sep]
                + spec_join1_prefix(parts.drop_first(), n - 1, sep)));
        } else {
            assert(spec_join1_prefix(parts, n, sep) =~= parts[0] + (seq![sep]
                + spec_join1_prefix(parts.drop_first(), n - 1, sep)));
        }
    }
}

} // verus!
