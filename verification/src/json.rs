//! The claim object format: a flat JSON object of strings, non-negative
//! integers and nulls, written compactly with `\"`, `\\` and `\u00XX`
//! escapes. The printer and parser below are exact inverses on any string
//! content, which the token round trip relies on.

use vstd::prelude::*;

use crate::bytes::{ascii, dec_digits};

verus! {

/// One JSON value of the claim object.
pub enum JsonVal {
    S(Vec<u8>),
    N(u64),
    Null,
}

pub enum JsonValView {
    S(Seq<u8>),
    N(u64),
    Null,
}

impl View for JsonVal {
    type V = JsonValView;

    open spec fn view(&self) -> JsonValView {
        match self {
            JsonVal::S(v) => JsonValView::S(v@),
            JsonVal::N(n) => JsonValView::N(*n),
            JsonVal::Null => JsonValView::Null,
        }
    }
}

/// One parsed key/value pair.
pub struct JsonPair {
    pub key: Vec<u8>,
    pub val: JsonVal,
}

#[verifier::ext_equal]
pub struct JsonPairView {
    pub key: Seq<u8>,
    pub val: JsonValView,
}

impl View for JsonPair {
    type V = JsonPairView;

    open spec fn view(&self) -> JsonPairView {
        JsonPairView { key: self.key@, val: self.val@ }
    }
}

pub open spec fn is_digit(b: u8) -> bool {
    0x30 <= b && b <= 0x39
}

/// A hex digit, either case.
pub open spec fn is_hex(b: u8) -> bool {
    is_digit(b) || (0x61 <= b && b <= 0x66) || (0x41 <= b && b <= 0x46)
}

/// The value of a hex digit.
pub open spec fn hex_val(b: u8) -> nat {
    if is_digit(b) {
        (b - 0x30) as nat
    } else if 0x61 <= b && b <= 0x66 {
        (b - 0x57) as nat
    } else if 0x41 <= b && b <= 0x46 {
        (b - 0x37) as nat
    } else {
        0
    }
}

/// The escaped form of one byte inside a JSON string: quote and backslash
/// get a backslash escape; control bytes get a `\u00XX` escape.
pub open spec fn esc_byte(b: u8) -> Seq<u8> {
    if b == 0x22 || b == 0x5c {
        seq![0x5cu8, b]
    } else if b < 0x20 {
        seq![0x5cu8, 0x75u8, 0x30u8, 0x30u8, hex_digit((b / 16) as nat), hex_digit((b % 16) as nat)]
    } else {
        seq![b]
    }
}

pub open spec fn hex_digit(n: nat) -> u8 {
    if n < 10 {
        (0x30 + n) as u8
    } else {
        (0x57 + n) as u8
    }
}

/// The escaped form of string content.
pub open spec fn esc(s: Seq<u8>) -> Seq<u8>
    decreases s.len(),
{
    if s.len() == 0 {
        Seq::empty()
    } else {
        esc_byte(s[0]) + esc(s.drop_first())
    }
}

/// A quoted JSON string.
pub open spec fn jstring(s: Seq<u8>) -> Seq<u8> {
    seq![0x22u8] + esc(s) + seq![0x22u8]
}

/// The printed form of one value.
pub open spec fn jval_bytes(v: JsonValView) -> Seq<u8> {
    match v {
        JsonValView::S(s) => jstring(s),
        JsonValView::N(n) => dec_digits(n as nat),
        JsonValView::Null => ascii("null"@),
    }
}

// ---------------------------------------------------------------------------
// The spec parser: recursive descent over byte suffixes.
// ---------------------------------------------------------------------------

/// Parses string content after the opening quote, up to and past the closing
/// quote. The accepted escapes are `\"`, `\\` and `\u00XX`; raw control
/// bytes are rejected.
pub open spec fn p_str(s: Seq<u8>) -> Option<(Seq<u8>, Seq<u8>)>
    decreases s.len(),
{
    if s.len() == 0 {
        None
    } else if s[0] == 0x22 {
        Some((Seq::empty(), s.drop_first()))
    } else if s[0] == 0x5c {
        if s.len() >= 2 && (s[1] == 0x22 || s[1] == 0x5c) {
            match p_str(s.skip(2)) {
                Some((c, r)) => Some((seq![s[1]] + c, r)),
                None => None,
            }
        } else if s.len() >= 6 && s[1] == 0x75 && s[2] == 0x30 && s[3] == 0x30 && is_hex(s[4])
            && is_hex(s[5]) {
            match p_str(s.skip(6)) {
                Some((c, r)) => Some((seq![(hex_val(s[4]) * 16 + hex_val(s[5])) as u8] + c, r)),
                None => None,
            }
        } else {
            None
        }
    } else if s[0] < 0x20 {
        None
    } else {
        match p_str(s.drop_first()) {
            Some((c, r)) => Some((seq![s[0]] + c, r)),
            None => None,
        }
    }
}

/// Count of leading decimal digits.
pub open spec fn digits_len(s: Seq<u8>) -> int
    decreases s.len(),
{
    if s.len() > 0 && is_digit(s[0]) {
        1 + digits_len(s.drop_first())
    } else {
        0
    }
}

/// The value of a digit string.
pub open spec fn dval(ds: Seq<u8>) -> nat
    decreases ds.len(),
{
    if ds.len() == 0 {
        0
    } else {
        dval(ds.drop_last()) * 10 + (if ds.last() >= 0x30 {
            (ds.last() - 0x30) as nat
        } else {
            0
        })
    }
}

/// Parses a non-negative integer of at most 19 digits (so it fits in `u64`).
pub open spec fn p_num(s: Seq<u8>) -> Option<(u64, Seq<u8>)> {
    let k = digits_len(s);
    if k == 0 || k > 19 {
        None
    } else {
        Some((dval(s.take(k)) as u64, s.skip(k)))
    }
}

/// Parses one value: string, number or `null`.
pub open spec fn p_val(s: Seq<u8>) -> Option<(JsonValView, Seq<u8>)> {
    if s.len() == 0 {
        None
    } else if s[0] == 0x22 {
        match p_str(s.drop_first()) {
            Some((c, r)) => Some((JsonValView::S(c), r)),
            None => None,
        }
    } else if is_digit(s[0]) {
        match p_num(s) {
            Some((n, r)) => Some((JsonValView::N(n), r)),
            None => None,
        }
    } else if s.len() >= 4 && s.take(4) == ascii("null"@) {
        Some((JsonValView::Null, s.skip(4)))
    } else {
        None
    }
}

/// Parses one `"key":value` member.
pub open spec fn p_member(s: Seq<u8>) -> Option<(JsonPairView, Seq<u8>)> {
    if s.len() > 0 && s[0] == 0x22 {
        match p_str(s.drop_first()) {
            Some((k, r1)) => if r1.len() > 0 && r1[0] == 0x3a {
                match p_val(r1.drop_first()) {
                    Some((v, r2)) => Some((JsonPairView { key: k, val: v }, r2)),
                    None => None,
                }
            } else {
                None
            },
            None => None,
        }
    } else {
        None
    }
}

/// Parses members separated by commas, up to and past the closing brace.
pub open spec fn p_members(s: Seq<u8>) -> Option<(Seq<JsonPairView>, Seq<u8>)>
    decreases s.len(),
{
    match p_member(s) {
        None => None,
        Some((kv, rest)) => if rest.len() >= s.len() {
            None
        } else if rest.len() > 0 && rest[0] == 0x2c {
            match p_members(rest.drop_first()) {
                Some((ps, r2)) => Some((seq![kv] + ps, r2)),
                None => None,
            }
        } else if rest.len() > 0 && rest[0] == 0x7d {
            Some((seq![kv], rest.drop_first()))
        } else {
            None
        },
    }
}

/// Parses a flat object.
pub open spec fn p_obj(s: Seq<u8>) -> Option<(Seq<JsonPairView>, Seq<u8>)> {
    if s.len() >= 2 && s[0] == 0x7b {
        if s[1] == 0x7d {
            Some((Seq::empty(), s.skip(2)))
        } else {
            p_members(s.drop_first())
        }
    } else {
        None
    }
}

/// Parses a whole buffer as one flat object.
pub open spec fn spec_parse_object(s: Seq<u8>) -> Option<Seq<JsonPairView>> {
    match p_obj(s) {
        Some((ps, rest)) => if rest.len() == 0 {
            Some(ps)
        } else {
            None
        },
        None => None,
    }
}

/// The value under the first occurrence of `key`.
pub open spec fn first_kv(ps: Seq<JsonPairView>, key: Seq<u8>) -> Option<JsonValView>
    decreases ps.len(),
{
    if ps.len() == 0 {
        None
    } else if ps[0].key == key {
        Some(ps[0].val)
    } else {
        first_kv(ps.drop_first(), key)
    }
}

// ---------------------------------------------------------------------------
// The printer.
// ---------------------------------------------------------------------------

/// One printed member.
pub open spec fn member_bytes(p: JsonPairView) -> Seq<u8> {
    jstring(p.key) + seq![0x3au8] + jval_bytes(p.val)
}

/// Printed members joined by commas, ending at the closing brace.
pub open spec fn members_bytes(ps: Seq<JsonPairView>) -> Seq<u8>
    decreases ps.len(),
{
    if ps.len() <= 1 {
        if ps.len() == 0 {
            seq![0x7du8]
        } else {
            member_bytes(ps[0]) + seq![0x7du8]
        }
    } else {
        member_bytes(ps[0]) + seq![0x2cu8] + members_bytes(ps.drop_first())
    }
}

/// The compact printed form of a flat object.
pub open spec fn object_bytes(ps: Seq<JsonPairView>) -> Seq<u8> {
    if ps.len() == 0 {
        seq![0x7bu8, 0x7du8]
    } else {
        seq![0x7bu8] + members_bytes(ps)
    }
}

/// Pairs whose printed numbers stay within nineteen digits.
pub open spec fn wf_pairs(ps: Seq<JsonPairView>) -> bool {
    forall|i: int|
        0 <= i < ps.len() ==> ((#[trigger] ps[i]).val matches JsonValView::N(n) ==> n
            < 10000000000000000000)
}

// ---------------------------------------------------------------------------
// Round-trip lemmas: parsing a printed object gives back the pairs.
// ---------------------------------------------------------------------------

/// A hex digit round-trips through its printed form.
pub proof fn lemma_hex_digit_val(n: nat)
    requires
        n < 16,
    ensures
        is_hex(hex_digit(n)),
        hex_val(hex_digit(n)) == n,
        hex_digit(n) != 0x22 && hex_digit(n) != 0x5c,
{
}

/// Parsing a printed string yields the original content, for any bytes: the
/// printer's escapes are exactly what the parser accepts.
pub proof fn lemma_pstr_esc(s: Seq<u8>, rest: Seq<u8>)
    ensures
        p_str(esc(s) + seq![0x22u8] + rest) == Some((s, rest)),
    decreases s.len(),
{
    let input = esc(s) + seq![0x22u8] + rest;
    if s.len() == 0 {
        assert(esc(s) =~= Seq::<u8>::empty());
        assert(input[0] == 0x22);
        assert(input.drop_first() =~= rest);
    } else {
        let b = s[0];
        lemma_pstr_esc(s.drop_first(), rest);
        if b == 0x22 || b == 0x5c {
            assert(esc_byte(b) =~= seq![0x5cu8, b]);
            assert(input[0] == 0x5c);
            assert(input[1] == b);
            assert(input.skip(2) =~= esc(s.drop_first()) + seq![0x22u8] + rest);
            assert(seq![b] + s.drop_first() =~= s);
        } else if b < 0x20 {
            let hi = hex_digit((b / 16) as nat);
            let lo = hex_digit((b % 16) as nat);
            assert(esc_byte(b) =~= seq![0x5cu8, 0x75u8, 0x30u8, 0x30u8, hi, lo]);
            assert(input[0] == 0x5c);
            assert(input[1] == 0x75);
            assert(input[2] == 0x30);
            assert(input[3] == 0x30);
            assert(input[4] == hi);
            assert(input[5] == lo);
            lemma_hex_digit_val((b / 16) as nat);
            lemma_hex_digit_val((b % 16) as nat);
            assert(input.len() >= 6);
            assert(input.skip(6) =~= esc(s.drop_first()) + seq![0x22u8] + rest);
            assert((hex_val(hi) * 16 + hex_val(lo)) as u8 == b);
            assert(seq![b] + s.drop_first() =~= s);
        } else {
            assert(esc_byte(b) =~= seq![b]);
            assert(input[0] == b);
            assert(input[0] != 0x22 && input[0] != 0x5c && !(input[0] < 0x20));
            assert(input.drop_first() =~= esc(s.drop_first()) + seq![0x22u8] + rest);
            assert(seq![b] + s.drop_first() =~= s);
        }
    }
}

/// The decimal digits of `n` are digits and evaluate back to `n`.
pub proof fn lemma_dec_digits(n: nat)
    ensures
        dec_digits(n).len() >= 1,
        forall|i: int| 0 <= i < dec_digits(n).len() ==> is_digit(#[trigger] dec_digits(n)[i]),
        dval(dec_digits(n)) == n,
        n < 10000000000000000000 ==> dec_digits(n).len() <= 19,
    decreases n,
{
    if n < 10 {
        assert(dec_digits(n) =~= seq![(n + 0x30) as u8]);
        assert(dec_digits(n).drop_last() =~= Seq::<u8>::empty());
        assert(dval(Seq::<u8>::empty()) == 0);
        assert(dec_digits(n).last() == (n + 0x30) as u8);
        assert(dval(dec_digits(n)) == 0 * 10 + n);
    } else {
        lemma_dec_digits(n / 10);
        assert(dec_digits(n) == dec_digits(n / 10).push(((n % 10) + 0x30) as u8));
        assert(dec_digits(n).drop_last() =~= dec_digits(n / 10));
        assert(dval(dec_digits(n)) == dval(dec_digits(n / 10)) * 10 + (n % 10));
        assert(forall|i: int|
            0 <= i < dec_digits(n).len() - 1 ==> #[trigger] dec_digits(n)[i] == dec_digits(
                n / 10,
            )[i]);
        if n < 10000000000000000000 {
            lemma_pow10_19();
            assert(n / 10 < 1000000000000000000);
            lemma_dec_len_bound(n / 10, 18);
        }
    }
}

/// `n < 10^k` gives at most `k` digits (for the bounds used here).
pub proof fn lemma_dec_len_bound(n: nat, k: nat)
    requires
        1 <= k,
        n < pow10(k),
    ensures
        dec_digits(n).len() <= k,
    decreases k,
{
    if n < 10 {
    } else {
        assert(k >= 2) by {
            assert(pow10(0) == 1);
            assert(pow10(1) == 10);
        }
        assert(n / 10 < pow10((k - 1) as nat)) by {
            assert(pow10(k) == pow10((k - 1) as nat) * 10);
        }
        lemma_dec_len_bound(n / 10, (k - 1) as nat);
    }
}

pub open spec fn pow10(k: nat) -> nat
    decreases k,
{
    if k == 0 {
        1
    } else {
        pow10((k - 1) as nat) * 10
    }
}

/// The powers of ten used by the digit-count bounds.
pub proof fn lemma_pow10_19()
    ensures
        pow10(18) == 1000000000000000000,
        pow10(19) == 10000000000000000000,
{
    assert(pow10(0) == 1);
    assert(pow10(1) == 10);
    assert(pow10(2) == 100);
    assert(pow10(3) == 1000);
    assert(pow10(4) == 10000);
    assert(pow10(5) == 100000);
    assert(pow10(6) == 1000000);
    assert(pow10(7) == 10000000);
    assert(pow10(8) == 100000000);
    assert(pow10(9) == 1000000000);
    assert(pow10(10) == 10000000000);
    assert(pow10(11) == 100000000000);
    assert(pow10(12) == 1000000000000);
    assert(pow10(13) == 10000000000000);
    assert(pow10(14) == 100000000000000);
    assert(pow10(15) == 1000000000000000);
    assert(pow10(16) == 10000000000000000);
    assert(pow10(17) == 100000000000000000);
    assert(pow10(18) == 1000000000000000000);
    assert(pow10(19) == 10000000000000000000);
}

/// Leading digits of `ds + rest` are exactly `ds` when `rest` opens with a
/// non-digit.
pub proof fn lemma_digits_len_concat(ds: Seq<u8>, rest: Seq<u8>)
    requires
        forall|i: int| 0 <= i < ds.len() ==> is_digit(#[trigger] ds[i]),
        rest.len() > 0 ==> !is_digit(rest[0]),
    ensures
        digits_len(ds + rest) == ds.len(),
    decreases ds.len(),
{
    if ds.len() == 0 {
        assert(ds + rest =~= rest);
    } else {
        assert(forall|i: int|
            0 <= i < ds.drop_first().len() ==> #[trigger] ds.drop_first()[i] == ds[i + 1]);
        lemma_digits_len_concat(ds.drop_first(), rest);
        assert((ds + rest)[0] == ds[0]);
        assert((ds + rest).drop_first() =~= ds.drop_first() + rest);
    }
}

/// Parsing a printed number yields the original value.
pub proof fn lemma_pnum_dec(n: u64, rest: Seq<u8>)
    requires
        n < 10000000000000000000,
        rest.len() > 0 ==> !is_digit(rest[0]),
    ensures
        p_num(dec_digits(n as nat) + rest) == Some((n, rest)),
{
    let ds = dec_digits(n as nat);
    lemma_dec_digits(n as nat);
    lemma_digits_len_concat(ds, rest);
    let input = ds + rest;
    assert(input.take(ds.len() as int) =~= ds);
    assert(input.skip(ds.len() as int) =~= rest);
}

/// Parsing a printed value yields the original value.
pub proof fn lemma_pval(v: JsonValView, rest: Seq<u8>)
    requires
        (v matches JsonValView::N(n) ==> n < 10000000000000000000),
        rest.len() > 0 ==> !is_digit(rest[0]),
    ensures
        p_val(jval_bytes(v) + rest) == Some((v, rest)),
        jval_bytes(v).len() >= 1,
{
    match v {
        JsonValView::S(s) => {
            let input = jval_bytes(v) + rest;
            assert(input[0] == 0x22);
            assert(input.drop_first() =~= esc(s) + seq![0x22u8] + rest);
            lemma_pstr_esc(s, rest);
        },
        JsonValView::N(n) => {
            let input = jval_bytes(v) + rest;
            lemma_dec_digits(n as nat);
            assert(input[0] == dec_digits(n as nat)[0]);
            assert(is_digit(input[0]));
            assert(input[0] != 0x22);
            assert(input.drop_first() =~= dec_digits(n as nat).drop_first() + rest) by {
                assert(dec_digits(n as nat) + rest =~= input);
            }
            lemma_pnum_dec(n, rest);
            assert(dec_digits(n as nat) + rest =~= input);
        },
        JsonValView::Null => {
            let input = jval_bytes(v) + rest;
            proof_null_bytes();
            assert(input[0] == 0x6e);
            assert(!is_digit(input[0]) && input[0] != 0x22);
            assert(input.len() >= 4);
            assert(input.take(4) =~= ascii("null"@));
            assert(input.skip(4) =~= rest);
        },
    }
}

/// The bytes of the `null` literal.
pub proof fn proof_null_bytes()
    ensures
        ascii("null"@).len() == 4,
        ascii("null"@)[0] == 0x6e,
        ascii("null"@)[1] == 0x75,
        ascii("null"@)[2] == 0x6c,
        ascii("null"@)[3] == 0x6c,
{
    reveal_strlit("null");
}

/// Parsing a printed member yields the original pair.
pub proof fn lemma_pmember(p: JsonPairView, rest: Seq<u8>)
    requires
        (p.val matches JsonValView::N(n) ==> n < 10000000000000000000),
        rest.len() > 0 ==> !is_digit(rest[0]),
    ensures
        p_member(member_bytes(p) + rest) == Some((p, rest)),
        member_bytes(p).len() >= 4,
{
    let input = member_bytes(p) + rest;
    assert(input[0] == 0x22);
    assert(input.drop_first() =~= esc(p.key) + seq![0x22u8] + (seq![0x3au8] + jval_bytes(p.val)
        + rest));
    lemma_pstr_esc(p.key, seq![0x3au8] + jval_bytes(p.val) + rest);
    let r1 = seq![0x3au8] + jval_bytes(p.val) + rest;
    assert(r1[0] == 0x3a);
    assert(r1.drop_first() =~= jval_bytes(p.val) + rest);
    lemma_pval(p.val, rest);
}

/// Parsing printed members yields the original pairs.
pub proof fn lemma_pmembers(ps: Seq<JsonPairView>, rest: Seq<u8>)
    requires
        ps.len() >= 1,
        wf_pairs(ps),
        rest.len() > 0 ==> !is_digit(rest[0]),
    ensures
        p_members(members_bytes(ps) + rest) == Some((ps, rest)),
    decreases ps.len(),
{
    let input = members_bytes(ps) + rest;
    if ps.len() == 1 {
        assert(members_bytes(ps) == member_bytes(ps[0]) + seq![0x7du8]);
        lemma_pmember(ps[0], seq![0x7du8] + rest);
        assert(input =~= member_bytes(ps[0]) + (seq![0x7du8] + rest));
        let r = seq![0x7du8] + rest;
        assert(p_member(input) == Some((ps[0], r)));
        assert(r.len() < input.len()) by {
            lemma_pmember(ps[0], r);
        }
        assert(r[0] == 0x7d);
        assert(r.drop_first() =~= rest);
        assert(seq![ps[0]] =~= ps);
    } else {
        assert(wf_pairs(ps.drop_first())) by {
            assert(forall|i: int|
                0 <= i < ps.drop_first().len() ==> #[trigger] ps.drop_first()[i] == ps[i + 1]);
        }
        lemma_pmembers(ps.drop_first(), rest);
        assert(members_bytes(ps) == member_bytes(ps[0]) + seq![0x2cu8] + members_bytes(
            ps.drop_first(),
        ));
        let tail = seq![0x2cu8] + members_bytes(ps.drop_first()) + rest;
        assert(input =~= member_bytes(ps[0]) + tail);
        lemma_pmember(ps[0], tail);
        assert(p_member(input) == Some((ps[0], tail)));
        assert(tail.len() < input.len());
        assert(tail[0] == 0x2c);
        assert(tail.drop_first() =~= members_bytes(ps.drop_first()) + rest);
        assert(seq![ps[0]] + ps.drop_first() =~= ps);
    }
}

/// Parsing a printed object yields the original pairs.
pub proof fn lemma_parse_object_bytes(ps: Seq<JsonPairView>)
    requires
        ps.len() >= 1,
        wf_pairs(ps),
    ensures
        spec_parse_object(object_bytes(ps)) == Some(ps),
{
    let input = object_bytes(ps);
    assert(input =~= seq![0x7bu8] + members_bytes(ps));
    lemma_pmembers(ps, Seq::empty());
    assert(members_bytes(ps) + Seq::<u8>::empty() =~= members_bytes(ps));
    assert(input[0] == 0x7b);
    assert(input.drop_first() =~= members_bytes(ps));
    assert(input.len() >= 2) by {
        lemma_pmember(ps[0], if ps.len() == 1 {
            seq![0x7du8]
        } else {
            seq![0x2cu8] + members_bytes(ps.drop_first())
        });
    }
    assert(input[1] != 0x7d) by {
        assert(members_bytes(ps)[0] == member_bytes(ps[0])[0]);
        assert(member_bytes(ps[0])[0] == 0x22);
    }
}

// ---------------------------------------------------------------------------
// Executable printer.
// ---------------------------------------------------------------------------

/// Escaping distributes over appending one byte.
pub proof fn lemma_esc_snoc(a: Seq<u8>, b: u8)
    ensures
        esc(a.push(b)) == esc(a) + esc_byte(b),
    decreases a.len(),
{
    if a.len() == 0 {
        assert(a.push(b).drop_first() =~= Seq::<u8>::empty());
        assert(a.push(b)[0] == b);
        assert(esc(Seq::<u8>::empty()) =~= Seq::<u8>::empty());
        assert(esc(a.push(b)) =~= esc_byte(b) + Seq::<u8>::empty());
        assert(esc_byte(b) + Seq::<u8>::empty() =~= esc_byte(b));
        assert(esc(a) + esc_byte(b) =~= esc_byte(b));
    } else {
        assert(a.push(b).drop_first() =~= a.drop_first().push(b));
        lemma_esc_snoc(a.drop_first(), b);
        assert(esc(a.push(b)) == esc_byte(a[0]) + (esc(a.drop_first()) + esc_byte(b)));
        assert(esc_byte(a[0]) + (esc(a.drop_first()) + esc_byte(b)) =~= (esc_byte(a[0]) + esc(
            a.drop_first(),
        )) + esc_byte(b));
    }
}

/// Appends the quoted, escaped form of `s` to `out`.
pub fn append_jstring(out: &mut Vec<u8>, s: &[u8])
    ensures
        final(out)@ == old(out)@ + jstring(s@),
{
    out.push(0x22);
    let n = s.len();
    let mut i: usize = 0;
    while i < n
        invariant
            n == s@.len(),
            i <= n,
            out@ == old(out)@ + seq![0x22u8] + esc(s@.take(i as int)),
        decreases n - i,
    {
        let b = s[i];
        let ghost pre = out@;
        if b == 0x22 || b == 0x5c {
            out.push(0x5c);
            out.push(b);
            proof {
                assert(out@ =~= pre + esc_byte(b));
            }
        } else if b < 0x20 {
            out.push(0x5c);
            out.push(0x75);
            out.push(0x30);
            out.push(0x30);
            let hi = b / 16;
            let lo = b % 16;
            out.push(if hi < 10 { 0x30 + hi } else { 0x57 + hi });
            out.push(if lo < 10 { 0x30 + lo } else { 0x57 + lo });
            proof {
                assert(out@ =~= pre + esc_byte(b));
            }
        } else {
            out.push(b);
            proof {
                assert(out@ =~= pre + esc_byte(b));
            }
        }
        proof {
            assert(s@.take(i + 1) =~= s@.take(i as int).push(b));
            lemma_esc_snoc(s@.take(i as int), b);
            assert(out@ =~= old(out)@ + seq![0x22u8] + esc(s@.take(i + 1)));
        }
        i = i + 1;
    }
    out.push(0x22);
    proof {
        assert(s@.take(n as int) =~= s@);
        assert(out@ =~= old(out)@ + jstring(s@));
    }
}

// ---------------------------------------------------------------------------
// Executable parser.
// ---------------------------------------------------------------------------

/// The views of parsed pairs.
pub open spec fn pv(s: Seq<JsonPair>) -> Seq<JsonPairView> {
    Seq::new(s.len(), |i: int| s[i]@)
}

/// Decodes one hex digit.
fn hex_nibble(b: u8) -> (r: Option<u8>)
    ensures
        match r {
            Some(v) => is_hex(b) && v == hex_val(b) && v <= 15,
            None => !is_hex(b),
        },
{
    if 0x30 <= b && b <= 0x39 {
        Some(b - 0x30)
    } else if 0x61 <= b && b <= 0x66 {
        Some(b - 0x57)
    } else if 0x41 <= b && b <= 0x46 {
        Some(b - 0x37)
    } else {
        None
    }
}

/// Parses string content starting at `i` (just past the opening quote).
pub fn pe_str(s: &[u8], i: usize) -> (r: Option<(Vec<u8>, usize)>)
    requires
        i <= s@.len(),
    ensures
        match r {
            Some((c, j)) => i <= j <= s@.len() && p_str(s@.skip(i as int)) == Some((
                c@,
                s@.skip(j as int),
            )),
            None => p_str(s@.skip(i as int)) is None,
        },
{
    let mut out: Vec<u8> = Vec::new();
    let mut cur: usize = i;
    loop
        invariant
            i <= cur <= s@.len(),
            ({
                let whole = p_str(s@.skip(i as int));
                match p_str(s@.skip(cur as int)) {
                    Some((c, r)) => whole == Some((out@ + c, r)),
                    None => whole is None,
                }
            }),
        decreases s@.len() - cur,
    {
        if cur >= s.len() {
            proof {
                assert(s@.skip(cur as int).len() == 0);
            }
            return None;
        }
        let b = s[cur];
        proof {
            assert(s@.skip(cur as int)[0] == b);
            assert(s@.skip(cur as int).drop_first() =~= s@.skip(cur + 1));
        }
        if b == 0x22 {
            proof {
                assert(p_str(s@.skip(cur as int)) == Some((Seq::<u8>::empty(), s@.skip(cur + 1))));
                assert(out@ + Seq::<u8>::empty() =~= out@);
            }
            return Some((out, cur + 1));
        } else if b == 0x5c {
            if cur + 1 < s.len() {
                let e = s[cur + 1];
                proof {
                    assert(s@.skip(cur as int)[1] == e);
                    assert(s@.skip(cur as int).skip(2) =~= s@.skip(cur + 2));
                }
                if e == 0x22 || e == 0x5c {
                    let ghost o0 = out@;
                    out.push(e);
                    proof {
                        match p_str(s@.skip(cur + 2)) {
                            Some((c, r)) => {
                                assert(p_str(s@.skip(cur as int)) == Some((seq![e] + c, r)));
                                assert(o0 + (seq![e] + c) =~= out@ + c);
                            },
                            None => {},
                        }
                    }
                    cur = cur + 2;
                } else if e == 0x75 {
                    let n = s.len();
                    if n - cur < 6 {
                        proof {
                            assert(s@.skip(cur as int).len() < 6);
                        }
                        return None;
                    }
                    proof {
                        assert(s@.skip(cur as int)[2] == s@[cur + 2]);
                        assert(s@.skip(cur as int)[3] == s@[cur + 3]);
                        assert(s@.skip(cur as int)[4] == s@[cur + 4]);
                        assert(s@.skip(cur as int)[5] == s@[cur + 5]);
                        assert(s@.skip(cur as int).skip(6) =~= s@.skip(cur + 6));
                    }
                    if s[cur + 2] != 0x30 || s[cur + 3] != 0x30 {
                        return None;
                    }
                    let hi = match hex_nibble(s[cur + 4]) {
                        Some(v) => v,
                        None => {
                            return None;
                        },
                    };
                    let lo = match hex_nibble(s[cur + 5]) {
                        Some(v) => v,
                        None => {
                            return None;
                        },
                    };
                    let ghost o0 = out@;
                    let decoded: u8 = hi * 16 + lo;
                    out.push(decoded);
                    proof {
                        match p_str(s@.skip(cur + 6)) {
                            Some((c, r)) => {
                                assert(p_str(s@.skip(cur as int)) == Some((
                                    seq![decoded] + c,
                                    r,
                                )));
                                assert(o0 + (seq![decoded] + c) =~= out@ + c);
                            },
                            None => {},
                        }
                    }
                    cur = cur + 6;
                } else {
                    return None;
                }
            } else {
                proof {
                    assert(s@.skip(cur as int).len() < 2);
                }
                return None;
            }
        } else if b < 0x20 {
            return None;
        } else {
            let ghost o0 = out@;
            out.push(b);
            proof {
                match p_str(s@.skip(cur + 1)) {
                    Some((c, r)) => {
                        assert(p_str(s@.skip(cur as int)) == Some((seq![b] + c, r)));
                        assert(o0 + (seq![b] + c) =~= out@ + c);
                    },
                    None => {},
                }
            }
            cur = cur + 1;
        }
    }
}

/// `digits_len` of a suffix whose digit run is known exactly.
proof fn lemma_digits_len_at(t: Seq<u8>, k: int)
    requires
        0 <= k <= t.len(),
        forall|m: int| 0 <= m < k ==> is_digit(#[trigger] t[m]),
        k < t.len() ==> !is_digit(t[k]),
    ensures
        digits_len(t) == k,
    decreases k,
{
    if t.len() == 0 {
    } else if k == 0 {
    } else {
        assert(forall|m: int| 0 <= m < k - 1 ==> #[trigger] t.drop_first()[m] == t[m + 1]);
        if k - 1 < t.drop_first().len() {
            assert(t.drop_first()[k - 1] == t[k]);
        }
        lemma_digits_len_at(t.drop_first(), k - 1);
    }
}

/// A digit string's value is bounded by the power of ten of its length.
proof fn lemma_dval_bound(ds: Seq<u8>)
    requires
        forall|i: int| 0 <= i < ds.len() ==> is_digit(#[trigger] ds[i]),
    ensures
        dval(ds) < pow10(ds.len() as nat),
    decreases ds.len(),
{
    if ds.len() == 0 {
    } else {
        assert(forall|i: int|
            0 <= i < ds.drop_last().len() ==> #[trigger] ds.drop_last()[i] == ds[i]);
        lemma_dval_bound(ds.drop_last());
    }
}

/// Whether the byte at `j` exists and is a decimal digit.
fn digit_at(s: &[u8], j: usize) -> (r: bool)
    ensures
        r == (j < s@.len() && is_digit(s@[j as int])),
{
    if j < s.len() {
        let b = s[j];
        0x30 <= b && b <= 0x39
    } else {
        false
    }
}

/// Parses a number starting at `i`.
pub fn pe_num(s: &[u8], i: usize) -> (r: Option<(u64, usize)>)
    requires
        i <= s@.len(),
    ensures
        match r {
            Some((n, j)) => i <= j <= s@.len() && p_num(s@.skip(i as int)) == Some((
                n,
                s@.skip(j as int),
            )),
            None => p_num(s@.skip(i as int)) is None,
        },
{
    let n = s.len();
    let mut j: usize = i;
    while digit_at(s, j)
        invariant
            i <= j <= n,
            n == s@.len(),
            forall|m: int| i <= m < j ==> is_digit(#[trigger] s@[m]),
        decreases n - j,
    {
        j = j + 1;
    }
    proof {
        assert forall|m: int| 0 <= m < j - i implies is_digit(#[trigger] s@.skip(i as int)[m]) by {
            assert(s@.skip(i as int)[m] == s@[m + i]);
        }
        if (j - i) < s@.skip(i as int).len() {
            assert(s@.skip(i as int)[j - i] == s@[j as int]);
        }
        lemma_digits_len_at(s@.skip(i as int), j - i);
    }
    let k = j - i;
    if k == 0 || k > 19 {
        return None;
    }
    let ghost ds = s@.skip(i as int).take(k as int);
    proof {
        assert(forall|m: int| 0 <= m < ds.len() ==> ds[m] == s@[m + i]);
        lemma_pow10_19();
    }
    let mut acc: u64 = 0;
    let mut m: usize = i;
    while m < j
        invariant
            i <= m <= j,
            j <= s@.len(),
            k == j - i,
            k <= 19,
            ds == s@.skip(i as int).take(k as int),
            forall|q: int| i <= q < j ==> is_digit(#[trigger] s@[q]),
            acc == dval(ds.take(m - i)),
            acc < pow10((m - i) as nat),
            pow10(18) == 1000000000000000000,
            pow10(19) == 10000000000000000000,
        decreases j - m,
    {
        let b = s[m];
        proof {
            assert(is_digit(b));
            assert(ds.take(m + 1 - i).drop_last() =~= ds.take(m - i));
            assert(ds.take(m + 1 - i).last() == s@[m as int]);
            assert(pow10(((m - i) + 1) as nat) == pow10((m - i) as nat) * 10);
            lemma_pow10_mono((m - i + 1) as nat, 19);
        }
        acc = acc * 10 + ((b - 0x30) as u64);
        m = m + 1;
    }
    proof {
        assert(ds.take(k as int) =~= ds);
        assert(s@.skip(i as int).skip(k as int) =~= s@.skip(j as int));
    }
    Some((acc, j))
}

/// `pow10` grows with its argument.
proof fn lemma_pow10_mono(a: nat, b: nat)
    requires
        a <= b,
    ensures
        pow10(a) <= pow10(b),
    decreases b,
{
    if a < b {
        lemma_pow10_mono(a, (b - 1) as nat);
        assert(pow10(b) == pow10((b - 1) as nat) * 10);
    }
}

/// Parses one value starting at `i`.
pub fn pe_val(s: &[u8], i: usize) -> (r: Option<(JsonVal, usize)>)
    requires
        i <= s@.len(),
    ensures
        match r {
            Some((v, j)) => i <= j <= s@.len() && p_val(s@.skip(i as int)) == Some((
                v@,
                s@.skip(j as int),
            )),
            None => p_val(s@.skip(i as int)) is None,
        },
{
    if i >= s.len() {
        proof {
            assert(s@.skip(i as int).len() == 0);
        }
        return None;
    }
    let b = s[i];
    proof {
        assert(s@.skip(i as int)[0] == b);
        assert(s@.skip(i as int).drop_first() =~= s@.skip(i + 1));
    }
    if b == 0x22 {
        match pe_str(s, i + 1) {
            Some((c, j)) => Some((JsonVal::S(c), j)),
            None => None,
        }
    } else if 0x30 <= b && b <= 0x39 {
        match pe_num(s, i) {
            Some((v, j)) => Some((JsonVal::N(v), j)),
            None => None,
        }
    } else if b == 0x6e && s.len() > 3 && i < s.len() - 3 && s[i + 1] == 0x75 && s[i + 2] == 0x6c
        && s[i + 3] == 0x6c {
        proof {
            proof_null_bytes();
            assert(s@.skip(i as int).take(4) =~= ascii("null"@));
            assert(s@.skip(i as int).skip(4) =~= s@.skip(i + 4));
        }
        Some((JsonVal::Null, i + 4))
    } else {
        proof {
            proof_null_bytes();
            if s@.skip(i as int).len() >= 4 && s@.skip(i as int).take(4) == ascii("null"@) {
                assert(s@.skip(i as int)[0] == ascii("null"@)[0]);
                assert(s@[i + 1] == ascii("null"@)[1]);
                assert(s@[i + 2] == ascii("null"@)[2]);
                assert(s@[i + 3] == ascii("null"@)[3]);
                assert(false);
            }
        }
        None
    }
}

/// Parses one `"key":value` member starting at `i`.
pub fn pe_member(s: &[u8], i: usize) -> (r: Option<(JsonPair, usize)>)
    requires
        i <= s@.len(),
    ensures
        match r {
            Some((p, j)) => i <= j <= s@.len() && p_member(s@.skip(i as int)) == Some((
                p@,
                s@.skip(j as int),
            )),
            None => p_member(s@.skip(i as int)) is None,
        },
{
    if i >= s.len() {
        proof {
            assert(s@.skip(i as int).len() == 0);
        }
        return None;
    }
    let b = s[i];
    proof {
        assert(s@.skip(i as int)[0] == b);
        assert(s@.skip(i as int).drop_first() =~= s@.skip(i + 1));
    }
    if b != 0x22 {
        return None;
    }
    let (key, j1) = match pe_str(s, i + 1) {
        Some(x) => x,
        None => {
            return None;
        },
    };
    if j1 >= s.len() {
        proof {
            assert(s@.skip(j1 as int).len() == 0);
        }
        return None;
    }
    let c = s[j1];
    proof {
        assert(s@.skip(j1 as int)[0] == c);
        assert(s@.skip(j1 as int).drop_first() =~= s@.skip(j1 + 1));
    }
    if c != 0x3a {
        return None;
    }
    match pe_val(s, j1 + 1) {
        Some((v, j2)) => Some((JsonPair { key, val: v }, j2)),
        None => None,
    }
}

/// Parses members starting at `i`, past the closing brace.
pub fn pe_members(s: &[u8], i: usize) -> (r: Option<(Vec<JsonPair>, usize)>)
    requires
        i <= s@.len(),
    ensures
        match r {
            Some((ps, j)) => i <= j <= s@.len() && p_members(s@.skip(i as int)) == Some((
                pv(ps@),
                s@.skip(j as int),
            )),
            None => p_members(s@.skip(i as int)) is None,
        },
{
    let mut out: Vec<JsonPair> = Vec::new();
    let mut cur: usize = i;
    loop
        invariant
            i <= cur <= s@.len(),
            ({
                let whole = p_members(s@.skip(i as int));
                match p_members(s@.skip(cur as int)) {
                    Some((ps, r)) => whole == Some((pv(out@) + ps, r)),
                    None => whole is None,
                }
            }),
        decreases s@.len() - cur,
    {
        let (pair, j) = match pe_member(s, cur) {
            Some(x) => x,
            None => {
                return None;
            },
        };
        if j <= cur {
            proof {
                assert(s@.skip(j as int).len() >= s@.skip(cur as int).len());
            }
            return None;
        }
        if j >= s.len() {
            proof {
                assert(s@.skip(j as int).len() == 0);
                assert(s@.skip(j as int).len() < s@.skip(cur as int).len());
            }
            return None;
        }
        let c = s[j];
        proof {
            assert(s@.skip(j as int)[0] == c);
            assert(s@.skip(j as int).drop_first() =~= s@.skip(j + 1));
            assert(s@.skip(j as int).len() < s@.skip(cur as int).len());
        }
        if c == 0x2c {
            let ghost o0 = out@;
            out.push(pair);
            proof {
                match p_members(s@.skip(j + 1)) {
                    Some((ps, r)) => {
                        assert(p_members(s@.skip(cur as int)) == Some((seq![out@.last()@] + ps, r)));
                        assert(pv(o0) + (seq![out@.last()@] + ps) =~= pv(out@) + ps);
                    },
                    None => {},
                }
            }
            cur = j + 1;
        } else if c == 0x7d {
            let ghost o0 = out@;
            out.push(pair);
            proof {
                assert(p_members(s@.skip(cur as int)) == Some((seq![out@.last()@], s@.skip(j + 1))));
                assert(pv(o0) + seq![out@.last()@] =~= pv(out@));
            }
            return Some((out, j + 1));
        } else {
            return None;
        }
    }
}

/// Parses a whole buffer as one flat object.
pub fn parse_object(s: &[u8]) -> (r: Option<Vec<JsonPair>>)
    ensures
        match r {
            Some(ps) => spec_parse_object(s@) == Some(pv(ps@)),
            None => spec_parse_object(s@) is None,
        },
{
    if s.len() < 2 {
        return None;
    }
    let b0 = s[0];
    let b1 = s[1];
    if b0 != 0x7b {
        return None;
    }
    if b1 == 0x7d {
        if s.len() == 2 {
            let out: Vec<JsonPair> = Vec::new();
            proof {
                assert(s@.skip(2).len() == 0);
                assert(pv(out@) =~= Seq::<JsonPairView>::empty());
            }
            return Some(out);
        } else {
            proof {
                assert(s@.skip(2).len() != 0);
            }
            return None;
        }
    }
    proof {
        assert(s@.drop_first() =~= s@.skip(1));
    }
    match pe_members(s, 1) {
        Some((ps, j)) => {
            if j == s.len() {
                proof {
                    assert(s@.skip(j as int).len() == 0);
                }
                Some(ps)
            } else {
                proof {
                    assert(s@.skip(j as int).len() != 0);
                }
                None
            }
        },
        None => None,
    }
}

/// Looks up the first value under `key`.
pub fn lookup(ps: &Vec<JsonPair>, key: &[u8]) -> (r: Option<JsonVal>)
    ensures
        match r {
            Some(v) => first_kv(pv(ps@), key@) == Some(v@),
            None => first_kv(pv(ps@), key@) is None,
        },
{
    let n = ps.len();
    proof {
        assert(pv(ps@).skip(0) =~= pv(ps@));
    }
    let mut i: usize = 0;
    while i < n
        invariant
            n == ps@.len(),
            i <= n,
            first_kv(pv(ps@), key@) == first_kv(pv(ps@).skip(i as int), key@),
        decreases n - i,
    {
        proof {
            assert(pv(ps@).skip(i as int)[0] == ps@[i as int]@);
            assert(pv(ps@).skip(i as int).drop_first() =~= pv(ps@).skip(i + 1));
        }
        if crate::bytes::bytes_eq(ps[i].key.as_slice(), key) {
            let v = match &ps[i].val {
                JsonVal::S(x) => JsonVal::S(crate::bytes::copy_bytes(x.as_slice())),
                JsonVal::N(n2) => JsonVal::N(*n2),
                JsonVal::Null => JsonVal::Null,
            };
            proof {
                assert(v@ == ps@[i as int]@.val);
            }
            return Some(v);
        }
        i = i + 1;
    }
    proof {
        assert(pv(ps@).skip(n as int).len() == 0);
    }
    None
}

} // verus!