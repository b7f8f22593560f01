//! The membership wire format.
//!
//! A membership push is a JSON array of records, one per cluster member, in
//! canonical form: `[{"node_nr":N,"address":"A"},...]` with no whitespace,
//! decimal indices without leading zeros, and `"` and `\` escaped with a
//! backslash inside addresses. The encoder emits exactly this form and the
//! decoder accepts exactly this form; anything else is a malformed payload.

use vstd::prelude::*;
use vstd::string::{StrSliceExecFns, StringExecFns};

use crate::numbers::{
    all_digits, digit_val, digits_val, is_digit_char, lemma_pow10_10, lemma_pow10_le,
    lemma_u32_digits_len, lemma_u32_digits_shape, lemma_u32_digits_val, pow10, u32_digits,
    u32_digits_vec,
};
use crate::records::{seq_view, MpcNodeAddresses};
use crate::text::{chars_of_str, push_char, push_chars, string_of_chars};

verus! {

// ---------------------------------------------------------------------------
// Encoding
// ---------------------------------------------------------------------------
/// How one address character travels: `"` and `\` get a leading backslash.
pub open spec fn escape_char(c: char) -> Seq<char> {
    if c == '"' || c == '\\' {
        seq!['\\', c]
    } else {
        seq![c]
    }
}

pub open spec fn escape_chars(s: Seq<char>) -> Seq<char>
    decreases s.len(),
{
    if s.len() == 0 {
        Seq::empty()
    } else {
        escape_char(s.first()) + escape_chars(s.drop_first())
    }
}

pub open spec fn lit_rec_open() -> Seq<char> {
    seq!['{', '"', 'n', 'o', 'd', 'e', '_', 'n', 'r', '"', ':']
}

pub open spec fn lit_rec_mid() -> Seq<char> {
    seq![',', '"', 'a', 'd', 'd', 'r', 'e', 's', 's', '"', ':', '"']
}

/// The canonical encoding of one record.
pub open spec fn record_encoding(r: (u32, Seq<char>)) -> Seq<char> {
    lit_rec_open() + u32_digits(r.0 as nat) + lit_rec_mid() + escape_chars(r.1) + seq!['"', '}']
}

/// The encoding after the first record: `,record` repeated, then `]`.
pub open spec fn records_encoding_rest(rs: Seq<(u32, Seq<char>)>) -> Seq<char>
    decreases rs.len(),
{
    if rs.len() == 0 {
        seq![']']
    } else {
        seq![','] + record_encoding(rs.first()) + records_encoding_rest(rs.drop_first())
    }
}

/// The canonical encoding of a whole membership list.
pub open spec fn records_encoding(rs: Seq<(u32, Seq<char>)>) -> Seq<char> {
    if rs.len() == 0 {
        seq!['[', ']']
    } else {
        seq!['['] + record_encoding(rs.first()) + records_encoding_rest(rs.drop_first())
    }
}

// ---------------------------------------------------------------------------
// Decoding
// ---------------------------------------------------------------------------
/// Strips `tag` off the front of `s`, or fails.
pub open spec fn parse_tag(s: Seq<char>, tag: Seq<char>) -> Option<Seq<char>> {
    if tag.len() <= s.len() && s.take(tag.len() as int) == tag {
        Some(s.skip(tag.len() as int))
    } else {
        None
    }
}

/// Length of the maximal digit prefix of `s`.
pub open spec fn digit_span(s: Seq<char>) -> int
    decreases s.len(),
{
    if s.len() > 0 && is_digit_char(s.first()) {
        1 + digit_span(s.drop_first())
    } else {
        0
    }
}

pub proof fn lemma_digit_span_bounds(s: Seq<char>)
    ensures
        0 <= digit_span(s) <= s.len(),
    decreases s.len(),
{
    if s.len() > 0 && is_digit_char(s.first()) {
        lemma_digit_span_bounds(s.drop_first());
    }
}

/// Parses a canonical decimal `u32`: a nonempty digit run, no leading zero
/// (except `0` itself), value within `u32`.
pub open spec fn parse_number(s: Seq<char>) -> Option<(u32, Seq<char>)> {
    let k = digit_span(s);
    if k == 0 || k > 10 {
        None
    } else if s[0] == '0' && k != 1 {
        None
    } else if digits_val(s.take(k)) > u32::MAX {
        None
    } else {
        Some((digits_val(s.take(k)) as u32, s.skip(k)))
    }
}

/// Parses the body of a quoted string up to and including the closing quote,
/// undoing the canonical escapes.
pub open spec fn parse_qstring(s: Seq<char>) -> Option<(Seq<char>, Seq<char>)>
    decreases s.len(),
{
    if s.len() == 0 {
        None
    } else if s.first() == '"' {
        Some((Seq::empty(), s.drop_first()))
    } else if s.first() == '\\' {
        if s.len() >= 2 && (s[1] == '"' || s[1] == '\\') {
            match parse_qstring(s.skip(2)) {
                Some(p) => Some((seq![s[1]] + p.0, p.1)),
                None => None,
            }
        } else {
            None
        }
    } else {
        match parse_qstring(s.drop_first()) {
            Some(p) => Some((seq![s.first()] + p.0, p.1)),
            None => None,
        }
    }
}

/// Parses one record.
pub open spec fn parse_record(s: Seq<char>) -> Option<((u32, Seq<char>), Seq<char>)> {
    match parse_tag(s, lit_rec_open()) {
        None => None,
        Some(s1) => match parse_number(s1) {
            None => None,
            Some((n, s2)) => match parse_tag(s2, lit_rec_mid()) {
                None => None,
                Some(s3) => match parse_qstring(s3) {
                    None => None,
                    Some((a, s4)) => match parse_tag(s4, seq!['}']) {
                        None => None,
                        Some(s5) => Some(((n, a), s5)),
                    },
                },
            },
        },
    }
}

pub proof fn lemma_parse_qstring_len(s: Seq<char>)
    ensures
        parse_qstring(s) matches Some(p) ==> p.1.len() < s.len(),
    decreases s.len(),
{
    if s.len() == 0 {
    } else if s.first() == '"' {
    } else if s.first() == '\\' {
        if s.len() >= 2 && (s[1] == '"' || s[1] == '\\') {
            lemma_parse_qstring_len(s.skip(2));
        }
    } else {
        lemma_parse_qstring_len(s.drop_first());
    }
}

pub proof fn lemma_parse_record_len(s: Seq<char>)
    ensures
        parse_record(s) matches Some(p) ==> p.1.len() < s.len(),
{
    match parse_tag(s, lit_rec_open()) {
        None => {},
        Some(s1) => {
            assert(s1.len() == s.len() - 11);
            match parse_number(s1) {
                None => {},
                Some(p1) => {
                    let s2 = p1.1;
                    lemma_digit_span_bounds(s1);
                    assert(s2.len() <= s1.len());
                    match parse_tag(s2, lit_rec_mid()) {
                        None => {},
                        Some(s3) => {
                            assert(s3.len() == s2.len() - 12);
                            lemma_parse_qstring_len(s3);
                        },
                    }
                },
            }
        },
    }
}

/// Parses `record (',' record)* ']'`, returning the records and what follows.
pub open spec fn parse_records_rest(s: Seq<char>) -> Option<(Seq<(u32, Seq<char>)>, Seq<char>)>
    decreases s.len(),
    via parse_records_rest_decreases
{
    match parse_record(s) {
        None => None,
        Some((r, rest)) => if rest.len() > 0 && rest.first() == ',' {
            match parse_records_rest(rest.drop_first()) {
                Some(p) => Some((seq![r] + p.0, p.1)),
                None => None,
            }
        } else if rest.len() > 0 && rest.first() == ']' {
            Some((seq![r], rest.drop_first()))
        } else {
            None
        },
    }
}

#[via_fn]
proof fn parse_records_rest_decreases(s: Seq<char>) {
    lemma_parse_record_len(s);
}

/// Parses a whole canonical membership payload, or fails.
pub open spec fn parse_records(s: Seq<char>) -> Option<Seq<(u32, Seq<char>)>> {
    if s.len() == 2 && s[0] == '[' && s[1] == ']' {
        Some(Seq::empty())
    } else if s.len() >= 1 && s[0] == '[' {
        match parse_records_rest(s.drop_first()) {
            Some((rs, rest)) => if rest.len() == 0 {
                Some(rs)
            } else {
                None
            },
            None => None,
        }
    } else {
        None
    }
}

// ---------------------------------------------------------------------------
// Round trip: decoding a canonical encoding gives the records back.
// ---------------------------------------------------------------------------
proof fn lemma_parse_tag_exact(tag: Seq<char>, rest: Seq<char>)
    ensures
        parse_tag(tag + rest, tag) == Some(rest),
{
    let s = tag + rest;
    assert(s.take(tag.len() as int) =~= tag);
    assert(s.skip(tag.len() as int) =~= rest);
}

proof fn lemma_digit_span_exact(ds: Seq<char>, rest: Seq<char>)
    requires
        all_digits(ds),
        rest.len() == 0 || !is_digit_char(rest[0]),
    ensures
        digit_span(ds + rest) == ds.len(),
    decreases ds.len(),
{
    if ds.len() == 0 {
        assert(ds + rest =~= rest);
    } else {
        let s = ds + rest;
        assert(s.first() == ds[0]);
        assert(is_digit_char(ds[0]));
        assert(s.drop_first() =~= ds.drop_first() + rest);
        assert(all_digits(ds.drop_first())) by {
            assert(forall|i: int|
                0 <= i < ds.drop_first().len() ==> #[trigger] ds.drop_first()[i] == ds[i + 1]);
        }
        lemma_digit_span_exact(ds.drop_first(), rest);
    }
}

proof fn lemma_parse_number_exact(n: u32, rest: Seq<char>)
    requires
        rest.len() == 0 || !is_digit_char(rest[0]),
    ensures
        parse_number(u32_digits(n as nat) + rest) == Some((n, rest)),
{
    let ds = u32_digits(n as nat);
    let s = ds + rest;
    lemma_u32_digits_shape(n as nat);
    lemma_digit_span_exact(ds, rest);
    let k = digit_span(s);
    assert(k == ds.len());
    lemma_pow10_10();
    assert(n < pow10(10));
    lemma_u32_digits_len(n as nat, 10);
    assert(1 <= k <= 10);
    assert(s[0] == ds[0]);
    if s[0] == '0' {
        assert(n == 0);
        assert(ds.len() == 1);
    }
    assert(s.take(k) =~= ds);
    lemma_u32_digits_val(n as nat);
    assert(digits_val(s.take(k)) == n);
    assert(s.skip(k) =~= rest);
}

proof fn lemma_parse_qstring_exact(a: Seq<char>, rest: Seq<char>)
    ensures
        parse_qstring(escape_chars(a) + seq!['"'] + rest) == Some((a, rest)),
    decreases a.len(),
{
    let s = escape_chars(a) + seq!['"'] + rest;
    if a.len() == 0 {
        assert(escape_chars(a) =~= Seq::<char>::empty());
        assert(s =~= seq!['"'] + rest);
        assert(s.first() == '"');
        assert(s.drop_first() =~= rest);
        assert(a =~= Seq::<char>::empty());
    } else {
        let c = a.first();
        let tail = escape_chars(a.drop_first()) + seq!['"'] + rest;
        assert(escape_chars(a) == escape_char(c) + escape_chars(a.drop_first()));
        lemma_parse_qstring_exact(a.drop_first(), rest);
        if c == '"' || c == '\\' {
            assert(s =~= seq!['\\', c] + tail);
            assert(s.first() == '\\');
            assert(s.len() >= 2);
            assert(s[1] == c);
            assert(s.skip(2) =~= tail);
            assert(seq![s[1]] + a.drop_first() =~= a);
        } else {
            assert(s =~= seq![c] + tail);
            assert(s.first() == c);
            assert(s.drop_first() =~= tail);
            assert(seq![s.first()] + a.drop_first() =~= a);
        }
    }
}

proof fn lemma_parse_record_exact(r: (u32, Seq<char>), rest: Seq<char>)
    ensures
        parse_record(record_encoding(r) + rest) == Some((r, rest)),
{
    let s = record_encoding(r) + rest;
    let ds = u32_digits(r.0 as nat);
    let esc = escape_chars(r.1);
    let t1 = ds + lit_rec_mid() + esc + seq!['"', '}'] + rest;
    let t2 = lit_rec_mid() + esc + seq!['"', '}'] + rest;
    let t3 = esc + seq!['"', '}'] + rest;
    let t4 = seq!['}'] + rest;
    assert(s =~= lit_rec_open() + t1);
    lemma_parse_tag_exact(lit_rec_open(), t1);
    assert(t1 =~= ds + t2);
    assert(t2[0] == ',');
    assert(!is_digit_char(t2[0]));
    lemma_parse_number_exact(r.0, t2);
    assert(t2 =~= lit_rec_mid() + t3);
    lemma_parse_tag_exact(lit_rec_mid(), t3);
    assert(t3 =~= esc + seq!['"'] + t4);
    lemma_parse_qstring_exact(r.1, t4);
    assert(t4 =~= seq!['}'] + rest);
    lemma_parse_tag_exact(seq!['}'], rest);
    assert((r.0, r.1) == r);
}

#[verifier::rlimit(100)]
#[verifier::spinoff_prover]
proof fn lemma_parse_records_rest_exact(rs: Seq<(u32, Seq<char>)>, tail: Seq<char>)
    requires
        rs.len() >= 1,
    ensures
        parse_records_rest(record_encoding(rs.first()) + records_encoding_rest(rs.drop_first()) + tail)
            == Some((rs, tail)),
    decreases rs.len(),
{
    let enc0 = record_encoding(rs.first());
    let rest_enc = records_encoding_rest(rs.drop_first());
    let s = enc0 + rest_enc + tail;
    let after = rest_enc + tail;
    assert(s =~= enc0 + after);
    lemma_parse_record_exact(rs.first(), after);
    assert(parse_record(s) == Some((rs.first(), after)));
    if rs.drop_first().len() == 0 {
        assert(rest_enc == seq![']']);
        assert(after.first() == ']');
        assert(after.drop_first() =~= tail);
        assert(seq![rs.first()] =~= rs);
    } else {
        let rs2 = rs.drop_first();
        let enc1 = record_encoding(rs2.first());
        let rest_enc2 = records_encoding_rest(rs2.drop_first());
        assert(rest_enc == seq![','] + enc1 + rest_enc2);
        assert(after.first() == (seq![','] + enc1 + rest_enc2 + tail).first());
        assert((seq![','] + enc1 + rest_enc2 + tail).first() == ',');
        assert(after.drop_first() =~= enc1 + rest_enc2 + tail);
        lemma_parse_records_rest_exact(rs2, tail);
        assert(parse_records_rest(after.drop_first()) == Some((rs2, tail)));
        assert(seq![rs.first()] + rs2 =~= rs);
    }
}

/// Round trip: every membership list decodes from its own encoding, with the
/// same indices, the same addresses, and the same order.
pub proof fn lemma_codec_round_trip(rs: Seq<(u32, Seq<char>)>)
    ensures
        parse_records(records_encoding(rs)) == Some(rs),
{
    let s = records_encoding(rs);
    if rs.len() == 0 {
        assert(s =~= seq!['[', ']']);
        assert(rs =~= Seq::<(u32, Seq<char>)>::empty());
    } else {
        assert(s[0] == '[');
        assert(s[1] == record_encoding(rs.first())[0]);
        assert(record_encoding(rs.first())[0] == '{');
        assert(s.drop_first() =~= record_encoding(rs.first()) + records_encoding_rest(
            rs.drop_first(),
        ) + Seq::<char>::empty());
        lemma_parse_records_rest_exact(rs, Seq::empty());
    }
}

// ---------------------------------------------------------------------------
// Executable encoder
// ---------------------------------------------------------------------------
proof fn lemma_escape_push(p: Seq<char>, c: char)
    ensures
        escape_chars(p.push(c)) == escape_chars(p) + escape_char(c),
    decreases p.len(),
{
    if p.len() == 0 {
        assert(p.push(c).first() == c);
        assert(p.push(c).drop_first() =~= Seq::<char>::empty());
        assert(escape_chars(Seq::<char>::empty()) =~= Seq::<char>::empty());
        assert(escape_chars(p) =~= Seq::<char>::empty());
        assert(escape_chars(p.push(c)) == escape_char(c) + escape_chars(p.push(c).drop_first()));
        assert(escape_chars(p.push(c)) =~= escape_chars(p) + escape_char(c));
    } else {
        assert(p.push(c).first() == p.first());
        assert(p.push(c).drop_first() =~= p.drop_first().push(c));
        lemma_escape_push(p.drop_first(), c);
        assert(escape_char(p.first()) + (escape_chars(p.drop_first()) + escape_char(c))
            =~= (escape_char(p.first()) + escape_chars(p.drop_first())) + escape_char(c));
    }
}

fn escape_into(out: &mut String, s: &str)
    ensures
        final(out)@ == old(out)@ + escape_chars(s@),
{
    let n = s.unicode_len();
    let mut i: usize = 0;
    while i < n
        invariant
            n == s@.len(),
            i <= n,
            out@ == old(out)@ + escape_chars(s@.take(i as int)),
        decreases n - i,
    {
        let c = s.get_char(i);
        if c == '"' || c == '\\' {
            push_char(out, '\\');
            push_char(out, c);
        } else {
            push_char(out, c);
        }
        proof {
            lemma_escape_push(s@.take(i as int), c);
            assert(s@.take(i as int + 1) =~= s@.take(i as int).push(s@[i as int]));
            if c == '"' || c == '\\' {
                assert(old(out)@ + escape_chars(s@.take(i as int + 1)) =~= (old(out)@
                    + escape_chars(s@.take(i as int))).push('\\').push(c));
            } else {
                assert(old(out)@ + escape_chars(s@.take(i as int + 1)) =~= (old(out)@
                    + escape_chars(s@.take(i as int))).push(c));
            }
        }
        i = i + 1;
    }
    assert(s@.take(n as int) =~= s@);
}

fn encode_record_into(out: &mut String, rec: &MpcNodeAddresses)
    ensures
        final(out)@ == old(out)@ + record_encoding(rec@),
{
    out.append("{\"node_nr\":");
    proof {
        reveal_strlit("{\"node_nr\":");
        assert(("{\"node_nr\":")@ =~= lit_rec_open());
    }
    let ds = u32_digits_vec(rec.node_nr);
    push_chars(out, &ds);
    out.append(",\"address\":\"");
    proof {
        reveal_strlit(",\"address\":\"");
        assert((",\"address\":\"")@ =~= lit_rec_mid());
    }
    escape_into(out, rec.address.as_str());
    out.append("\"}");
    proof {
        reveal_strlit("\"}");
        assert(("\"}")@ =~= seq!['"', '}']);
        assert(out@ =~= old(out)@ + record_encoding(rec@));
    }
}

/// Encodes a membership list in the canonical wire form.
pub fn encode_records(recs: &Vec<MpcNodeAddresses>) -> (r: String)
    ensures
        r@ == records_encoding(seq_view(recs@)),
{
    let ghost rs = seq_view(recs@);
    let mut out = String::new();
    push_char(&mut out, '[');
    if recs.len() == 0 {
        push_char(&mut out, ']');
        assert(out@ =~= records_encoding(rs));
        out
    } else {
        encode_record_into(&mut out, &recs[0]);
        proof {
            assert(rs.first() == recs@[0]@);
            assert(out@ =~= seq!['['] + record_encoding(rs.first()));
        }
        let mut i: usize = 1;
        while i < recs.len()
            invariant
                1 <= i <= rs.len(),
                rs == seq_view(recs@),
                rs.len() == recs@.len(),
                out@ + records_encoding_rest(rs.skip(i as int)) == records_encoding(rs),
            decreases rs.len() - i,
        {
            let ghost out0 = out@;
            push_char(&mut out, ',');
            encode_record_into(&mut out, &recs[i]);
            proof {
                let tail = rs.skip(i as int);
                assert(tail.first() == recs@[i as int]@);
                assert(tail.drop_first() =~= rs.skip(i as int + 1));
                assert(records_encoding_rest(tail) == seq![','] + record_encoding(tail.first())
                    + records_encoding_rest(tail.drop_first()));
                assert(out@ == out0.push(',') + record_encoding(tail.first()));
                assert(out@ + records_encoding_rest(rs.skip(i as int + 1)) =~= out0
                    + records_encoding_rest(tail));
            }
            i = i + 1;
        }
        proof {
            assert(rs.skip(rs.len() as int) =~= Seq::<(u32, Seq<char>)>::empty());
            assert(records_encoding_rest(rs.skip(rs.len() as int)) =~= seq![']']);
        }
        push_char(&mut out, ']');
        assert(out@ =~= records_encoding(rs));
        out
    }
}

// ---------------------------------------------------------------------------
// Executable decoder
// ---------------------------------------------------------------------------
fn is_digit(c: char) -> (r: bool)
    ensures
        r == is_digit_char(c),
{
    let u = c as u32;
    48 <= u && u <= 57
}

proof fn lemma_digit_span_at(s: Seq<char>, k: int)
    requires
        0 <= k <= s.len(),
        forall|m: int| 0 <= m < k ==> is_digit_char(#[trigger] s[m]),
        k == s.len() || !is_digit_char(s[k]),
    ensures
        digit_span(s) == k,
    decreases k,
{
    if k == 0 {
    } else {
        assert(is_digit_char(s.first()));
        let t = s.drop_first();
        assert(forall|m: int| 0 <= m < k - 1 ==> #[trigger] t[m] == s[m + 1]);
        if k - 1 < t.len() {
            assert(t[k - 1] == s[k]);
        }
        lemma_digit_span_at(t, k - 1);
    }
}

/// Strips `tag` off the characters at position `i`, or fails.
fn take_tag(v: &Vec<char>, i: usize, tag: &Vec<char>) -> (r: Option<usize>)
    requires
        i <= v@.len(),
    ensures
        match r {
            Some(j) => i <= j <= v@.len() && j == i + tag@.len() && parse_tag(
                v@.skip(i as int),
                tag@,
            ) == Some(v@.skip(j as int)),
            None => parse_tag(v@.skip(i as int), tag@) is None,
        },
{
    let ghost s = v@.skip(i as int);
    if tag.len() > v.len() - i {
        return None;
    }
    let mut k: usize = 0;
    while k < tag.len()
        invariant
            i + tag@.len() <= v@.len(),
            v@.len() <= usize::MAX,
            k <= tag@.len(),
            s == v@.skip(i as int),
            forall|m: int| 0 <= m < k ==> v@[i + m] == tag@[m],
        decreases tag@.len() - k,
    {
        assert(i + k < v@.len());
        if v[i + k] != tag[k] {
            proof {
                if s.take(tag@.len() as int) == tag@ {
                    assert(s.take(tag@.len() as int)[k as int] == tag@[k as int]);
                    assert(s[k as int] == v@[i + k]);
                }
            }
            return None;
        }
        k = k + 1;
    }
    proof {
        assert(s.take(tag@.len() as int) =~= tag@);
        assert(s.skip(tag@.len() as int) =~= v@.skip(i + tag@.len()));
    }
    Some(i + tag.len())
}

fn rec_open_tag() -> (r: Vec<char>)
    ensures
        r@ == lit_rec_open(),
{
    let r = vec!['{', '"', 'n', 'o', 'd', 'e', '_', 'n', 'r', '"', ':'];
    assert(r@ =~= lit_rec_open());
    r
}

fn rec_mid_tag() -> (r: Vec<char>)
    ensures
        r@ == lit_rec_mid(),
{
    let r = vec![',', '"', 'a', 'd', 'd', 'r', 'e', 's', 's', '"', ':', '"'];
    assert(r@ =~= lit_rec_mid());
    r
}

/// Parses a canonical decimal `u32` at position `i`.
fn take_number(v: &Vec<char>, i: usize) -> (r: Option<(u32, usize)>)
    requires
        i <= v@.len(),
    ensures
        match r {
            Some(p) => i < p.1 <= v@.len() && parse_number(v@.skip(i as int)) == Some(
                (p.0, v@.skip(p.1 as int)),
            ),
            None => parse_number(v@.skip(i as int)) is None,
        },
{
    let ghost s = v@.skip(i as int);
    let mut j: usize = i;
    while j < v.len() && is_digit(v[j])
        invariant
            i <= j <= v@.len(),
            forall|m: int| i <= m < j ==> is_digit_char(#[trigger] v@[m]),
        decreases v@.len() - j,
    {
        j = j + 1;
    }
    proof {
        assert(forall|m: int| 0 <= m < j - i ==> #[trigger] s[m] == v@[i + m]);
        if j < v.len() {
            assert(s[j - i] == v@[j as int]);
        }
        lemma_digit_span_at(s, j - i);
    }
    let k = j - i;
    if k == 0 || k > 10 {
        return None;
    }
    if v[i] == '0' && k != 1 {
        assert(s[0] == v@[i as int]);
        return None;
    }
    assert(s[0] == v@[i as int]);
    let ghost ds = s.take(k as int);
    assert(ds =~= v@.subrange(i as int, j as int));
    let mut acc: u64 = 0;
    let mut m: usize = i;
    while m < j
        invariant
            i <= m <= j <= v@.len(),
            j - i <= 10,
            forall|q: int| i <= q < j ==> is_digit_char(#[trigger] v@[q]),
            acc == digits_val(v@.subrange(i as int, m as int)),
            acc < pow10((m - i) as nat),
        decreases j - m,
    {
        let d = (v[m] as u32) - 48;
        proof {
            let pre = v@.subrange(i as int, m as int);
            let cur = v@.subrange(i as int, m as int + 1);
            assert(cur.drop_last() =~= pre);
            assert(cur.last() == v@[m as int]);
            assert(digits_val(cur) == digits_val(pre) * 10 + digit_val(v@[m as int]));
            lemma_pow10_le((m - i + 1) as nat, 10);
            lemma_pow10_10();
            assert(pow10((m - i + 1) as nat) == 10 * pow10((m - i) as nat));
            assert(acc * 10 + 9 < 10 * pow10((m - i) as nat)) by (nonlinear_arith)
                requires
                    acc < pow10((m - i) as nat),
            ;
        }
        acc = acc * 10 + (d as u64);
        m = m + 1;
    }
    proof {
        assert(v@.subrange(i as int, j as int) =~= ds);
    }
    if acc > 0xFFFF_FFFF {
        assert(digits_val(ds) > u32::MAX);
        return None;
    }
    proof {
        assert(s.skip(k as int) =~= v@.skip(j as int));
    }
    Some((acc as u32, j))
}

/// Parses a quoted-string body at position `i`, undoing the escapes.
fn take_qstring(v: &Vec<char>, i: usize) -> (r: Option<(Vec<char>, usize)>)
    requires
        i <= v@.len(),
    ensures
        match r {
            Some(p) => i < p.1 <= v@.len() && parse_qstring(v@.skip(i as int)) == Some(
                (p.0@, v@.skip(p.1 as int)),
            ),
            None => parse_qstring(v@.skip(i as int)) is None,
        },
    decreases v@.len() - i,
{
    let ghost s = v@.skip(i as int);
    if i == v.len() {
        assert(s.len() == 0);
        return None;
    }
    let c = v[i];
    assert(s.first() == c);
    if c == '"' {
        proof {
            assert(s.drop_first() =~= v@.skip(i as int + 1));
        }
        let a: Vec<char> = Vec::new();
        assert(a@ =~= Seq::<char>::empty());
        Some((a, i + 1))
    } else if c == '\\' {
        if i + 1 < v.len() {
            let c2 = v[i + 1];
            assert(s.len() >= 2);
            assert(s[1] == c2);
            if c2 == '"' || c2 == '\\' {
                proof {
                    assert(s.skip(2) =~= v@.skip(i as int + 2));
                }
                match take_qstring(v, i + 2) {
                    Some((a, j)) => {
                        let mut a2 = a;
                        let ghost inner = a2@;
                        a2.insert(0, c2);
                        assert(a2@ =~= seq![s[1]] + inner);
                        Some((a2, j))
                    },
                    None => None,
                }
            } else {
                None
            }
        } else {
            assert(s.len() < 2);
            None
        }
    } else {
        proof {
            assert(s.drop_first() =~= v@.skip(i as int + 1));
        }
        match take_qstring(v, i + 1) {
            Some((a, j)) => {
                let mut a2 = a;
                let ghost inner = a2@;
                a2.insert(0, c);
                assert(a2@ =~= seq![s.first()] + inner);
                Some((a2, j))
            },
            None => None,
        }
    }
}

/// Parses one record at position `i`.
fn take_record(v: &Vec<char>, i: usize) -> (r: Option<(MpcNodeAddresses, usize)>)
    requires
        i <= v@.len(),
    ensures
        match r {
            Some(p) => i < p.1 <= v@.len() && parse_record(v@.skip(i as int)) == Some(
                (p.0@, v@.skip(p.1 as int)),
            ),
            None => parse_record(v@.skip(i as int)) is None,
        },
{
    let open = rec_open_tag();
    let j1 = match take_tag(v, i, &open) {
        None => {
            return None;
        },
        Some(j) => j,
    };
    let (n, j2) = match take_number(v, j1) {
        None => {
            return None;
        },
        Some(p) => p,
    };
    let mid = rec_mid_tag();
    let j3 = match take_tag(v, j2, &mid) {
        None => {
            return None;
        },
        Some(j) => j,
    };
    let (a, j4) = match take_qstring(v, j3) {
        None => {
            return None;
        },
        Some(p) => p,
    };
    let close = vec!['}'];
    assert(close@ =~= seq!['}']);
    let j5 = match take_tag(v, j4, &close) {
        None => {
            return None;
        },
        Some(j) => j,
    };
    let rec = MpcNodeAddresses { node_nr: n, address: string_of_chars(&a) };
    assert(rec@ == (n, a@));
    Some((rec, j5))
}

/// Parses `record (',' record)* ']'` from position `i`.
fn take_records_rest(v: &Vec<char>, i: usize) -> (r: Option<(Vec<MpcNodeAddresses>, usize)>)
    requires
        i <= v@.len(),
    ensures
        match r {
            Some(p) => p.1 <= v@.len() && parse_records_rest(v@.skip(i as int)) == Some(
                (seq_view(p.0@), v@.skip(p.1 as int)),
            ),
            None => parse_records_rest(v@.skip(i as int)) is None,
        },
    decreases v@.len() - i,
{
    let ghost s = v@.skip(i as int);
    match take_record(v, i) {
        None => None,
        Some((rec, j)) => {
            let ghost rest = v@.skip(j as int);
            if j < v.len() {
                let c = v[j];
                assert(rest.len() > 0);
                assert(rest.first() == c);
                if c == ',' {
                    proof {
                        assert(rest.drop_first() =~= v@.skip(j as int + 1));
                    }
                    match take_records_rest(v, j + 1) {
                        None => None,
                        Some((rs, j2)) => {
                            let mut rs2 = rs;
                            let ghost inner = rs2@;
                            rs2.insert(0, rec);
                            assert(seq_view(rs2@) =~= seq![rec@] + seq_view(inner));
                            Some((rs2, j2))
                        },
                    }
                } else if c == ']' {
                    proof {
                        assert(rest.drop_first() =~= v@.skip(j as int + 1));
                    }
                    let mut rs: Vec<MpcNodeAddresses> = Vec::new();
                    rs.push(rec);
                    assert(seq_view(rs@) =~= seq![rec@]);
                    Some((rs, j + 1))
                } else {
                    None
                }
            } else {
                assert(rest.len() == 0);
                None
            }
        },
    }
}

/// A whole piece of text read as one canonical decimal `u32`.
pub open spec fn parse_u32_text(s: Seq<char>) -> Option<u32> {
    match parse_number(s) {
        Some(p) => if p.1.len() == 0 {
            Some(p.0)
        } else {
            None
        },
        None => None,
    }
}

/// Reads a sender index out of a path segment such as the one in
/// `/hello_from/{sender}`.
pub fn u32_from_text(s: &str) -> (r: Option<u32>)
    ensures
        r == parse_u32_text(s@),
{
    let v = chars_of_str(s);
    assert(v@.skip(0) =~= v@);
    match take_number(&v, 0) {
        None => None,
        Some((n, j)) => {
            if j == v.len() {
                assert(v@.skip(j as int).len() == 0);
                Some(n)
            } else {
                assert(v@.skip(j as int).len() > 0);
                None
            }
        },
    }
}

/// A rendered index always reads back as itself.
pub proof fn lemma_u32_text_round_trip(n: u32)
    ensures
        parse_u32_text(u32_digits(n as nat)) == Some(n),
{
    lemma_parse_number_exact(n, Seq::empty());
    assert(u32_digits(n as nat) + Seq::<char>::empty() =~= u32_digits(n as nat));
}

/// Decodes a membership payload, or fails on anything but the canonical form.
pub fn decode_records(s: &str) -> (r: Option<Vec<MpcNodeAddresses>>)
    ensures
        match r {
            Some(recs) => parse_records(s@) == Some(seq_view(recs@)),
            None => parse_records(s@) is None,
        },
{
    let v = chars_of_str(s);
    if v.len() == 0 {
        return None;
    }
    if v[0] != '[' {
        return None;
    }
    if v.len() == 2 && v[1] == ']' {
        let recs: Vec<MpcNodeAddresses> = Vec::new();
        assert(seq_view(recs@) =~= Seq::<(u32, Seq<char>)>::empty());
        return Some(recs);
    }
    proof {
        assert(v@.drop_first() =~= v@.skip(1));
    }
    match take_records_rest(&v, 1) {
        None => None,
        Some((rs, j)) => {
            if j == v.len() {
                assert(v@.skip(j as int).len() == 0);
                Some(rs)
            } else {
                assert(v@.skip(j as int).len() > 0);
                None
            }
        },
    }
}

} // verus!
