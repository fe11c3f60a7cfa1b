use crate::record::{models, ProcessRecord, RecordModel, Report, ReportModel};
use vstd::prelude::*;

verus! {

pub const QUOTE: u8 = 34;

pub const BSLASH: u8 = 92;

pub const LBRACE: u8 = 123;

pub const RBRACE: u8 = 125;

pub const RBRACK: u8 = 93;

pub const COMMA: u8 = 44;

pub const DOT: u8 = 46;

// ---------------------------------------------------------------------
// The wire encoding: one UTF-8 JSON object per report, fields in a
// fixed order, strings with the quote and the backslash escaped, CPU
// usage as a decimal number with two fractional digits.
// ---------------------------------------------------------------------
/// The lowercase hex digit for `d % 16`.
pub open spec fn hex_digit(d: nat) -> u8 {
    if d % 16 < 10 {
        (48 + (d % 16)) as u8
    } else {
        (87 + (d % 16)) as u8
    }
}

/// A string byte on the wire: the quote and the backslash get a
/// backslash before them, a control byte becomes a `\u00xx` escape,
/// every other byte stands as it is.
pub open spec fn esc_byte(b: u8) -> Seq<u8> {
    if b == QUOTE || b == BSLASH {
        seq![BSLASH, b]
    } else if b < 0x20 {
        seq![BSLASH, 117u8, 48u8, 48u8, hex_digit((b / 16) as nat), hex_digit(b as nat)]
    } else {
        seq![b]
    }
}

/// A string's bytes on the wire, escaped, without the quotes.
pub open spec fn enc_bytes(s: Seq<u8>) -> Seq<u8>
    decreases s.len(),
{
    if s.len() == 0 {
        Seq::empty()
    } else {
        esc_byte(s[0]) + enc_bytes(s.drop_first())
    }
}

/// A JSON string: quoted, escaped.
pub open spec fn enc_string(s: Seq<u8>) -> Seq<u8> {
    seq![QUOTE] + enc_bytes(s) + seq![QUOTE]
}

/// The ASCII digit for `d % 10`.
pub open spec fn digit_byte(d: nat) -> u8 {
    (48 + (d % 10)) as u8
}

/// A decimal integer, most significant digit first, no leading zeros.
pub open spec fn enc_u64(n: nat) -> Seq<u8>
    decreases n,
{
    if n < 10 {
        seq![digit_byte(n)]
    } else {
        enc_u64(n / 10).push(digit_byte(n % 10))
    }
}

/// CPU usage in hundredths of a percent as a decimal number with
/// exactly two fractional digits.
pub open spec fn enc_cpu(centi: u64) -> Seq<u8> {
    enc_u64((centi / 100) as nat) + seq![
        DOT,
        digit_byte(((centi / 10) % 10) as nat),
        digit_byte((centi % 10) as nat),
    ]
}

/// `{"pid":`
pub open spec fn lit_obj_pid() -> Seq<u8> {
    seq![123u8, 34u8, 112u8, 105u8, 100u8, 34u8, 58u8]
}

/// `,"name":`
pub open spec fn lit_name() -> Seq<u8> {
    seq![44u8, 34u8, 110u8, 97u8, 109u8, 101u8, 34u8, 58u8]
}

/// `,"cpu_usage":`
pub open spec fn lit_cpu() -> Seq<u8> {
    seq![44u8, 34u8, 99u8, 112u8, 117u8, 95u8, 117u8, 115u8, 97u8, 103u8, 101u8, 34u8, 58u8]
}

/// `,"memory_kb":`
pub open spec fn lit_mem() -> Seq<u8> {
    seq![44u8, 34u8, 109u8, 101u8, 109u8, 111u8, 114u8, 121u8, 95u8, 107u8, 98u8, 34u8, 58u8]
}

/// `,"timestamp":`
pub open spec fn lit_stamp() -> Seq<u8> {
    seq![44u8, 34u8, 116u8, 105u8, 109u8, 101u8, 115u8, 116u8, 97u8, 109u8, 112u8, 34u8, 58u8]
}

/// `{"module":`
pub open spec fn lit_obj_module() -> Seq<u8> {
    seq![123u8, 34u8, 109u8, 111u8, 100u8, 117u8, 108u8, 101u8, 34u8, 58u8]
}

/// `,"process_count":`
pub open spec fn lit_count() -> Seq<u8> {
    seq![
        44u8,
        34u8,
        112u8,
        114u8,
        111u8,
        99u8,
        101u8,
        115u8,
        115u8,
        95u8,
        99u8,
        111u8,
        117u8,
        110u8,
        116u8,
        34u8,
        58u8,
    ]
}

/// `,"top_processes":[`
pub open spec fn lit_top() -> Seq<u8> {
    seq![
        44u8,
        34u8,
        116u8,
        111u8,
        112u8,
        95u8,
        112u8,
        114u8,
        111u8,
        99u8,
        101u8,
        115u8,
        115u8,
        101u8,
        115u8,
        34u8,
        58u8,
        91u8,
    ]
}

/// One record as a JSON object.
pub open spec fn enc_record(r: RecordModel) -> Seq<u8> {
    lit_obj_pid() + enc_u64(r.pid as nat) + lit_name() + enc_string(r.name) + lit_cpu() + enc_cpu(
        r.cpu_centi_percent,
    ) + lit_mem() + enc_u64(r.memory_kb as nat) + lit_stamp() + enc_string(r.timestamp) + seq![
        RBRACE,
    ]
}

/// The rest of a record array after its first record: `,` and a record,
/// repeated, then the closing `]`.
pub open spec fn enc_records_tail(rs: Seq<RecordModel>) -> Seq<u8>
    decreases rs.len(),
{
    if rs.len() == 0 {
        seq![RBRACK]
    } else {
        seq![COMMA] + enc_record(rs[0]) + enc_records_tail(rs.drop_first())
    }
}

/// A record array's content and its closing `]` (the opening `[` is
/// part of the field literal before it).
pub open spec fn enc_records(rs: Seq<RecordModel>) -> Seq<u8> {
    if rs.len() == 0 {
        seq![RBRACK]
    } else {
        enc_record(rs[0]) + enc_records_tail(rs.drop_first())
    }
}

/// One report as a JSON object: the wire payload.
pub open spec fn enc_report(r: ReportModel) -> Seq<u8> {
    lit_obj_module() + enc_string(r.module) + lit_count() + enc_u64(r.process_count as nat)
        + lit_top() + enc_records(r.top_processes) + lit_stamp() + enc_string(r.timestamp) + seq![
        RBRACE,
    ]
}

// ---------------------------------------------------------------------
// The decoder, as mathematics: each parser consumes a prefix and hands
// back the value with the rest of the input.
// ---------------------------------------------------------------------
/// Consume `lit` from the front of `inp`.
pub open spec fn expect_lit(lit: Seq<u8>, inp: Seq<u8>) -> Option<Seq<u8>> {
    if lit.len() <= inp.len() && inp.take(lit.len() as int) == lit {
        Some(inp.skip(lit.len() as int))
    } else {
        None
    }
}

/// A lowercase hex digit's value.
pub open spec fn is_hex(b: u8) -> bool {
    (48 <= b && b <= 57) || (97 <= b && b <= 102)
}

pub open spec fn hex_val(b: u8) -> int {
    if b <= 57 {
        b - 48
    } else {
        b - 87
    }
}

/// A string's bytes after the opening quote, up to and over the closing
/// quote; a backslash escapes the quote and itself, and `\u00xx` with
/// two lowercase hex digits stands for the byte `xx`.
pub open spec fn parse_str_rest(inp: Seq<u8>) -> Option<(Seq<u8>, Seq<u8>)>
    decreases inp.len(),
{
    if inp.len() == 0 {
        None
    } else if inp[0] == QUOTE {
        Some((Seq::empty(), inp.drop_first()))
    } else if inp[0] == BSLASH {
        if inp.len() >= 2 && (inp[1] == QUOTE || inp[1] == BSLASH) {
            match parse_str_rest(inp.skip(2)) {
                Some(p) => Some((seq![inp[1]] + p.0, p.1)),
                None => None,
            }
        } else if inp.len() >= 6 && inp[1] == 117 && inp[2] == 48 && inp[3] == 48 && is_hex(inp[4])
            && is_hex(inp[5]) && hex_val(inp[4]) * 16 + hex_val(inp[5]) < 256 {
            match parse_str_rest(inp.skip(6)) {
                Some(p) => Some((seq![(hex_val(inp[4]) * 16 + hex_val(inp[5])) as u8] + p.0, p.1)),
                None => None,
            }
        } else {
            None
        }
    } else {
        match parse_str_rest(inp.drop_first()) {
            Some(p) => Some((seq![inp[0]] + p.0, p.1)),
            None => None,
        }
    }
}

/// A quoted JSON string.
pub open spec fn parse_string(inp: Seq<u8>) -> Option<(Seq<u8>, Seq<u8>)> {
    if inp.len() > 0 && inp[0] == QUOTE {
        parse_str_rest(inp.drop_first())
    } else {
        None
    }
}

pub open spec fn is_digit(b: u8) -> bool {
    48 <= b && b <= 57
}

/// How many digits stand at the front of `inp`.
pub open spec fn digit_count(inp: Seq<u8>) -> nat
    decreases inp.len(),
{
    if inp.len() > 0 && is_digit(inp[0]) {
        1 + digit_count(inp.drop_first())
    } else {
        0
    }
}

/// The value of a digit string, most significant digit first.
pub open spec fn digits_val(ds: Seq<u8>) -> int
    decreases ds.len(),
{
    if ds.len() == 0 {
        0
    } else {
        digits_val(ds.drop_last()) * 10 + ds.last() - 48
    }
}

/// A decimal unsigned integer that fits a u64.
pub open spec fn parse_u64(inp: Seq<u8>) -> Option<(u64, Seq<u8>)> {
    let k = digit_count(inp);
    if k == 0 {
        None
    } else {
        let v = digits_val(inp.take(k as int));
        if v <= u64::MAX {
            Some((v as u64, inp.skip(k as int)))
        } else {
            None
        }
    }
}

/// A CPU number with exactly two fractional digits, back to hundredths
/// of a percent.
pub open spec fn parse_cpu(inp: Seq<u8>) -> Option<(u64, Seq<u8>)> {
    match parse_u64(inp) {
        Some((ip, r)) => {
            if r.len() >= 3 && r[0] == DOT && is_digit(r[1]) && is_digit(r[2]) {
                let v = (ip as int) * 100 + (r[1] - 48) * 10 + (r[2] - 48);
                if v <= u64::MAX {
                    Some((v as u64, r.skip(3)))
                } else {
                    None
                }
            } else {
                None
            }
        },
        None => None,
    }
}

/// One record object.
pub open spec fn parse_record(inp: Seq<u8>) -> Option<(RecordModel, Seq<u8>)> {
    match expect_lit(lit_obj_pid(), inp) {
        Some(r1) => match parse_u64(r1) {
            Some((pid, r2)) => if pid <= u32::MAX as u64 {
                match expect_lit(lit_name(), r2) {
                    Some(r3) => match parse_string(r3) {
                        Some((name, r4)) => match expect_lit(lit_cpu(), r4) {
                            Some(r5) => match parse_cpu(r5) {
                                Some((cpu, r6)) => match expect_lit(lit_mem(), r6) {
                                    Some(r7) => match parse_u64(r7) {
                                        Some((mem, r8)) => match expect_lit(lit_stamp(), r8) {
                                            Some(r9) => match parse_string(r9) {
                                                Some((stamp, r10)) => match expect_lit(
                                                    seq![RBRACE],
                                                    r10,
                                                ) {
                                                    Some(r11) => Some(
                                                        (
                                                            RecordModel {
                                                                pid: pid as u32,
                                                                name,
                                                                cpu_centi_percent: cpu,
                                                                memory_kb: mem,
                                                                timestamp: stamp,
                                                            },
                                                            r11,
                                                        ),
                                                    ),
                                                    None => None,
                                                },
                                                None => None,
                                            },
                                            None => None,
                                        },
                                        None => None,
                                    },
                                    None => None,
                                },
                                None => None,
                            },
                            None => None,
                        },
                        None => None,
                    },
                    None => None,
                }
            } else {
                None
            },
            None => None,
        },
        None => None,
    }
}

/// The rest of a record array after its first record.
pub open spec fn parse_records_tail(inp: Seq<u8>) -> Option<(Seq<RecordModel>, Seq<u8>)>
    decreases inp.len(),
{
    if inp.len() == 0 {
        None
    } else if inp[0] == RBRACK {
        Some((Seq::empty(), inp.drop_first()))
    } else if inp[0] == COMMA {
        match parse_record(inp.drop_first()) {
            Some(p) => if p.1.len() < inp.len() {
                match parse_records_tail(p.1) {
                    Some(q) => Some((seq![p.0] + q.0, q.1)),
                    None => None,
                }
            } else {
                None
            },
            None => None,
        }
    } else {
        None
    }
}

/// A record array's content up to and over its closing `]`.
pub open spec fn parse_records(inp: Seq<u8>) -> Option<(Seq<RecordModel>, Seq<u8>)> {
    if inp.len() == 0 {
        None
    } else if inp[0] == RBRACK {
        Some((Seq::empty(), inp.drop_first()))
    } else {
        match parse_record(inp) {
            Some(p) => match parse_records_tail(p.1) {
                Some(q) => Some((seq![p.0] + q.0, q.1)),
                None => None,
            },
            None => None,
        }
    }
}

/// One report object.
pub open spec fn parse_report(inp: Seq<u8>) -> Option<(ReportModel, Seq<u8>)> {
    match expect_lit(lit_obj_module(), inp) {
        Some(r1) => match parse_string(r1) {
            Some((module, r2)) => match expect_lit(lit_count(), r2) {
                Some(r3) => match parse_u64(r3) {
                    Some((count, r4)) => match expect_lit(lit_top(), r4) {
                        Some(r5) => match parse_records(r5) {
                            Some((tops, r6)) => match expect_lit(lit_stamp(), r6) {
                                Some(r7) => match parse_string(r7) {
                                    Some((stamp, r8)) => match expect_lit(seq![RBRACE], r8) {
                                        Some(r9) => Some(
                                            (
                                                ReportModel {
                                                    module,
                                                    process_count: count,
                                                    top_processes: tops,
                                                    timestamp: stamp,
                                                },
                                                r9,
                                            ),
                                        ),
                                        None => None,
                                    },
                                    None => None,
                                },
                                None => None,
                            },
                            None => None,
                        },
                        None => None,
                    },
                    None => None,
                },
                None => None,
            },
            None => None,
        },
        None => None,
    }
}

/// The decoding of a whole payload: one report, nothing after it.
pub open spec fn dec_report(inp: Seq<u8>) -> Option<ReportModel> {
    match parse_report(inp) {
        Some(p) => if p.1.len() == 0 {
            Some(p.0)
        } else {
            None
        },
        None => None,
    }
}

// ---------------------------------------------------------------------
// The round trip: each parser undoes its encoder exactly.
// ---------------------------------------------------------------------
proof fn lemma_expect_lit(lit: Seq<u8>, rest: Seq<u8>)
    ensures
        expect_lit(lit, lit + rest) == Some(rest),
{
    let inp = lit + rest;
    assert(inp.take(lit.len() as int) =~= lit);
    assert(inp.skip(lit.len() as int) =~= rest);
}

proof fn lemma_parse_str_rest(s: Seq<u8>, rest: Seq<u8>)
    ensures
        parse_str_rest(enc_bytes(s) + seq![QUOTE] + rest) == Some((s, rest)),
    decreases s.len(),
{
    let inp = enc_bytes(s) + seq![QUOTE] + rest;
    if s.len() == 0 {
        assert(inp =~= seq![QUOTE] + rest);
        assert(inp[0] == QUOTE);
        let p = parse_str_rest(inp);
        assert(p is Some);
        assert((p->Some_0).0 =~= s);
        assert((p->Some_0).1 =~= rest);
    } else {
        let s2 = s.drop_first();
        let sub = enc_bytes(s2) + seq![QUOTE] + rest;
        lemma_parse_str_rest(s2, rest);
        assert(enc_bytes(s) == esc_byte(s[0]) + enc_bytes(s2));
        if s[0] == QUOTE || s[0] == BSLASH {
            assert(esc_byte(s[0]) == seq![BSLASH, s[0]]);
            assert(inp =~= seq![BSLASH, s[0]] + sub);
            assert(inp[0] == BSLASH);
            assert(inp[1] == s[0]);
            assert(inp.skip(2) =~= sub);
            let p = parse_str_rest(inp);
            assert(p is Some);
            assert((p->Some_0).0 =~= s);
            assert((p->Some_0).1 =~= rest);
        } else if s[0] < 0x20 {
            let b = s[0];
            let h1 = hex_digit((b / 16) as nat);
            let h0 = hex_digit(b as nat);
            assert(esc_byte(b) == seq![BSLASH, 117u8, 48u8, 48u8, h1, h0]);
            assert(inp =~= seq![BSLASH, 117u8, 48u8, 48u8, h1, h0] + sub);
            assert(inp[0] == BSLASH);
            assert(inp[1] == 117);
            assert(inp[2] == 48);
            assert(inp[3] == 48);
            assert(inp[4] == h1);
            assert(inp[5] == h0);
            assert(b / 16 < 2);
            assert(h1 == 48 + b / 16);
            assert(is_hex(h1));
            assert(is_hex(h0));
            assert(hex_val(h1) == b / 16);
            assert(hex_val(h0) == b % 16) by {
                if b % 16 < 10 {
                    assert(h0 == 48 + b % 16);
                } else {
                    assert(h0 == 87 + b % 16);
                }
            }
            assert(hex_val(inp[4]) * 16 + hex_val(inp[5]) == (b / 16) * 16 + b % 16);
            assert((b / 16) * 16 + b % 16 == b);
            assert(inp.skip(6) =~= sub);
            let p = parse_str_rest(inp);
            assert(p is Some);
            assert((p->Some_0).0 =~= s);
            assert((p->Some_0).1 =~= rest);
        } else {
            assert(esc_byte(s[0]) == seq![s[0]]);
            assert(inp =~= seq![s[0]] + sub);
            assert(inp[0] == s[0]);
            assert(inp[0] != QUOTE && inp[0] != BSLASH);
            assert(inp.drop_first() =~= sub);
            let p = parse_str_rest(inp);
            assert(p is Some);
            assert((p->Some_0).0 =~= s);
            assert((p->Some_0).1 =~= rest);
        }
    }
}

proof fn lemma_parse_string(s: Seq<u8>, rest: Seq<u8>)
    ensures
        parse_string(enc_string(s) + rest) == Some((s, rest)),
{
    let inp = enc_string(s) + rest;
    assert(inp[0] == QUOTE);
    assert(inp.drop_first() =~= enc_bytes(s) + seq![QUOTE] + rest);
    lemma_parse_str_rest(s, rest);
}

proof fn lemma_enc_u64_digits(n: nat)
    ensures
        enc_u64(n).len() >= 1,
        forall|i: int| 0 <= i < enc_u64(n).len() ==> is_digit(#[trigger] enc_u64(n)[i]),
    decreases n,
{
    if n >= 10 {
        lemma_enc_u64_digits(n / 10);
        let e = enc_u64(n / 10);
        assert forall|i: int| 0 <= i < enc_u64(n).len() implies is_digit(
            #[trigger] enc_u64(n)[i],
        ) by {
            if i < e.len() {
                assert(enc_u64(n)[i] == e[i]);
            } else {
                assert(enc_u64(n)[i] == digit_byte(n % 10));
            }
        }
    }
}

proof fn lemma_digit_count_all(a: Seq<u8>, rest: Seq<u8>)
    requires
        forall|i: int| 0 <= i < a.len() ==> is_digit(#[trigger] a[i]),
        rest.len() > 0 ==> !is_digit(rest[0]),
    ensures
        digit_count(a + rest) == a.len(),
    decreases a.len(),
{
    if a.len() == 0 {
        assert(a + rest =~= rest);
    } else {
        let inp = a + rest;
        assert(inp[0] == a[0]);
        assert(inp.drop_first() =~= a.drop_first() + rest);
        lemma_digit_count_all(a.drop_first(), rest);
    }
}

proof fn lemma_digits_val_enc(n: nat)
    ensures
        digits_val(enc_u64(n)) == n,
    decreases n,
{
    if n < 10 {
        let e = enc_u64(n);
        assert(e.drop_last() =~= Seq::<u8>::empty());
        assert(n % 10 == n);
        assert(e.last() == (48 + n) as u8);
        assert(e.last() - 48 == n);
        assert(digits_val(e) == digits_val(e.drop_last()) * 10 + e.last() - 48);
        assert(digits_val(e.drop_last()) == 0);
        assert(digits_val(e) == n);
    } else {
        lemma_digits_val_enc(n / 10);
        let e = enc_u64(n / 10);
        let w = enc_u64(n);
        assert(w == e.push(digit_byte(n % 10)));
        assert(w.drop_last() =~= e);
        assert((n % 10) % 10 == n % 10);
        assert(w.last() == (48 + n % 10) as u8);
        assert(w.last() - 48 == n % 10);
        assert(digits_val(w) == digits_val(e) * 10 + n % 10);
        assert((n / 10) * 10 + n % 10 == n);
    }
}

proof fn lemma_parse_u64(n: u64, rest: Seq<u8>)
    requires
        rest.len() > 0 ==> !is_digit(rest[0]),
    ensures
        parse_u64(enc_u64(n as nat) + rest) == Some((n, rest)),
{
    let e = enc_u64(n as nat);
    let inp = e + rest;
    lemma_enc_u64_digits(n as nat);
    lemma_digit_count_all(e, rest);
    lemma_digits_val_enc(n as nat);
    let k = digit_count(inp);
    assert(k == e.len());
    assert(inp.take(k as int) =~= e);
    assert(inp.skip(k as int) =~= rest);
}

proof fn lemma_parse_cpu(c: u64, rest: Seq<u8>)
    ensures
        parse_cpu(enc_cpu(c) + rest) == Some((c, rest)),
{
    let frac = seq![DOT, digit_byte(((c / 10) % 10) as nat), digit_byte((c % 10) as nat)];
    let ip = c / 100;
    let inp = enc_cpu(c) + rest;
    assert(inp =~= enc_u64(ip as nat) + (frac + rest));
    assert(!is_digit((frac + rest)[0]));
    lemma_parse_u64(ip, frac + rest);
    let r = (frac + rest)/*after the integer part*/;
    assert(r[0] == DOT);
    assert(r[1] == digit_byte(((c / 10) % 10) as nat));
    assert(r[2] == digit_byte((c % 10) as nat));
    let d1 = (c / 10) % 10;
    let d0 = c % 10;
    assert(r[1] - 48 == d1);
    assert(r[2] - 48 == d0);
    assert((ip as int) * 100 + d1 * 10 + d0 == c) by {
        vstd::arithmetic::div_mod::lemma_fundamental_div_mod(c as int, 10);
        vstd::arithmetic::div_mod::lemma_fundamental_div_mod(c as int / 10, 10);
        vstd::arithmetic::div_mod::lemma_div_denominator(c as int, 10, 10);
    }
    assert(r.skip(3) =~= rest);
}

#[verifier::rlimit(100)]
proof fn lemma_parse_record(r: RecordModel, rest: Seq<u8>)
    ensures
        parse_record(enc_record(r) + rest) == Some((r, rest)),
{
    let t9 = seq![RBRACE] + rest;
    let t8 = enc_string(r.timestamp) + t9;
    let t7 = lit_stamp() + t8;
    let t6 = enc_u64(r.memory_kb as nat) + t7;
    let t5 = lit_mem() + t6;
    let t4 = enc_cpu(r.cpu_centi_percent) + t5;
    let t3 = lit_cpu() + t4;
    let t2 = enc_string(r.name) + t3;
    let t1 = lit_name() + t2;
    let t0 = enc_u64(r.pid as nat) + t1;
    let inp = enc_record(r) + rest;
    assert(inp =~= lit_obj_pid() + t0);
    lemma_expect_lit(lit_obj_pid(), t0);
    assert(!is_digit(t1[0]));
    lemma_parse_u64(r.pid as u64, t1);
    lemma_expect_lit(lit_name(), t2);
    lemma_parse_string(r.name, t3);
    lemma_expect_lit(lit_cpu(), t4);
    lemma_parse_cpu(r.cpu_centi_percent, t5);
    lemma_expect_lit(lit_mem(), t6);
    assert(!is_digit(t7[0]));
    lemma_parse_u64(r.memory_kb, t7);
    lemma_expect_lit(lit_stamp(), t8);
    lemma_parse_string(r.timestamp, t9);
    assert(t9 =~= seq![RBRACE] + rest);
    lemma_expect_lit(seq![RBRACE], rest);
    let p = parse_record(inp);
    assert(p is Some);
    assert((p->Some_0).0 == r);
    assert((p->Some_0).1 == rest);
}

#[verifier::rlimit(60)]
proof fn lemma_parse_records_tail(rs: Seq<RecordModel>, rest: Seq<u8>)
    ensures
        parse_records_tail(enc_records_tail(rs) + rest) == Some((rs, rest)),
    decreases rs.len(),
{
    let inp = enc_records_tail(rs) + rest;
    if rs.len() == 0 {
        assert(inp =~= seq![RBRACK] + rest);
        assert(inp[0] == RBRACK);
        let p = parse_records_tail(inp);
        assert(p is Some);
        assert((p->Some_0).0 =~= rs);
        assert((p->Some_0).1 =~= rest);
    } else {
        let rs2 = rs.drop_first();
        let tail = enc_records_tail(rs2) + rest;
        assert(inp =~= seq![COMMA] + (enc_record(rs[0]) + tail));
        assert(inp[0] == COMMA);
        assert(inp[0] != RBRACK);
        assert(inp.drop_first() =~= enc_record(rs[0]) + tail);
        lemma_parse_record(rs[0], tail);
        assert(tail.len() < inp.len());
        lemma_parse_records_tail(rs2, rest);
        let p = parse_records_tail(inp);
        assert(p is Some);
        assert((p->Some_0).0 =~= rs);
        assert((p->Some_0).1 =~= rest);
    }
}

#[verifier::rlimit(60)]
proof fn lemma_parse_records(rs: Seq<RecordModel>, rest: Seq<u8>)
    ensures
        parse_records(enc_records(rs) + rest) == Some((rs, rest)),
{
    let inp = enc_records(rs) + rest;
    if rs.len() == 0 {
        assert(inp =~= seq![RBRACK] + rest);
        assert(inp[0] == RBRACK);
        let p = parse_records(inp);
        assert(p is Some);
        assert((p->Some_0).0 =~= rs);
        assert((p->Some_0).1 =~= rest);
    } else {
        let rs2 = rs.drop_first();
        let tail = enc_records_tail(rs2) + rest;
        assert(inp =~= enc_record(rs[0]) + tail);
        assert(inp[0] == LBRACE) by {
            assert(enc_record(rs[0])[0] == lit_obj_pid()[0]);
        }
        lemma_parse_record(rs[0], tail);
        lemma_parse_records_tail(rs2, rest);
        let p = parse_records(inp);
        assert(p is Some);
        assert((p->Some_0).0 =~= rs);
        assert((p->Some_0).1 =~= rest);
    }
}

#[verifier::rlimit(60)]
proof fn lemma_parse_report(r: ReportModel, rest: Seq<u8>)
    ensures
        parse_report(enc_report(r) + rest) == Some((r, rest)),
{
    let t7 = seq![RBRACE] + rest;
    let t6 = enc_string(r.timestamp) + t7;
    let t5 = lit_stamp() + t6;
    let t4 = enc_records(r.top_processes) + t5;
    let t3 = lit_top() + t4;
    let t2 = enc_u64(r.process_count as nat) + t3;
    let t1 = lit_count() + t2;
    let t0 = enc_string(r.module) + t1;
    let inp = enc_report(r) + rest;
    assert(inp =~= lit_obj_module() + t0);
    lemma_expect_lit(lit_obj_module(), t0);
    lemma_parse_string(r.module, t1);
    lemma_expect_lit(lit_count(), t2);
    assert(!is_digit(t3[0]));
    lemma_parse_u64(r.process_count, t3);
    lemma_expect_lit(lit_top(), t4);
    lemma_parse_records(r.top_processes, t5);
    lemma_expect_lit(lit_stamp(), t6);
    lemma_parse_string(r.timestamp, t7);
    assert(t7 =~= seq![RBRACE] + rest);
    lemma_expect_lit(seq![RBRACE], rest);
    let p = parse_report(inp);
    assert(p is Some);
    assert((p->Some_0).0 == r);
    assert((p->Some_0).1 == rest);
}

/// Round trip: decoding an encoded report gives back exactly the
/// report's model, so re-encoding what was decoded yields a payload
/// identical to the first.
pub proof fn lemma_report_round_trip(r: ReportModel)
    ensures
        dec_report(enc_report(r)) == Some(r),
        enc_report(dec_report(enc_report(r))->Some_0) == enc_report(r),
{
    lemma_parse_report(r, Seq::empty());
    assert(enc_report(r) + Seq::<u8>::empty() =~= enc_report(r));
}

// ---------------------------------------------------------------------
// The executable encoder.
// ---------------------------------------------------------------------
proof fn lemma_enc_bytes_snoc(s: Seq<u8>, b: u8)
    ensures
        enc_bytes(s.push(b)) == enc_bytes(s) + esc_byte(b),
    decreases s.len(),
{
    if s.len() == 0 {
        assert(s.push(b)[0] == b);
        assert(s.push(b).drop_first() =~= Seq::<u8>::empty());
        assert(enc_bytes(Seq::<u8>::empty()) == Seq::<u8>::empty());
        assert(enc_bytes(s.push(b)) == esc_byte(b) + enc_bytes(s.push(b).drop_first()));
        assert(enc_bytes(s.push(b)) =~= enc_bytes(s) + esc_byte(b));
    } else {
        assert(s.push(b)[0] == s[0]);
        assert(s.push(b).drop_first() =~= s.drop_first().push(b));
        lemma_enc_bytes_snoc(s.drop_first(), b);
        assert(enc_bytes(s.push(b)) =~= enc_bytes(s) + esc_byte(b));
    }
}

/// Appends `n` in decimal.
fn write_u64(out: &mut Vec<u8>, n: u64)
    ensures
        final(out)@ == old(out)@ + enc_u64(n as nat),
    decreases n,
{
    if n >= 10 {
        write_u64(out, n / 10);
        let d = (n % 10) as u8;
        out.push(48 + d);
        proof {
            assert((n / 10) as nat == (n as nat) / 10);
            assert(digit_byte((n as nat) % 10) == 48 + d);
            assert(out@ =~= old(out)@ + enc_u64(n as nat));
        }
    } else {
        let d = n as u8;
        out.push(48 + d);
        proof {
            assert(digit_byte(n as nat) == 48 + d);
            assert(out@ =~= old(out)@ + enc_u64(n as nat));
        }
    }
}

/// Appends `s` as a quoted, escaped JSON string.
fn write_escaped(out: &mut Vec<u8>, s: &Vec<u8>)
    ensures
        final(out)@ == old(out)@ + enc_string(s@),
{
    let ghost base = old(out)@;
    out.push(QUOTE);
    proof {
        assert(s@.take(0) =~= Seq::<u8>::empty());
        assert(out@ =~= base + seq![QUOTE] + enc_bytes(s@.take(0)));
    }
    let mut i: usize = 0;
    while i < s.len()
        invariant
            i <= s@.len(),
            out@ == base + seq![QUOTE] + enc_bytes(s@.take(i as int)),
        decreases s@.len() - i,
    {
        let b = s[i];
        if b == QUOTE || b == BSLASH {
            out.push(BSLASH);
            out.push(b);
        } else if b < 0x20 {
            out.push(BSLASH);
            out.push(117);
            out.push(48);
            out.push(48);
            out.push(48 + b / 16);
            let lo = b % 16;
            if lo < 10 {
                out.push(48 + lo);
            } else {
                out.push(87 + lo);
            }
            proof {
                assert((b / 16) as nat % 16 == b / 16);
                assert(hex_digit((b / 16) as nat) == 48 + b / 16);
                assert(b as nat % 16 == b % 16);
                if b % 16 < 10 {
                    assert(hex_digit(b as nat) == 48 + b % 16);
                } else {
                    assert(hex_digit(b as nat) == 87 + b % 16);
                }
            }
        } else {
            out.push(b);
        }
        proof {
            lemma_enc_bytes_snoc(s@.take(i as int), b);
            assert(s@.take(i as int + 1) =~= s@.take(i as int).push(b));
            assert(out@ =~= base + seq![QUOTE] + enc_bytes(s@.take(i as int + 1)));
        }
        i = i + 1;
    }
    out.push(QUOTE);
    proof {
        assert(s@.take(s@.len() as int) =~= s@);
        assert(out@ =~= base + enc_string(s@));
    }
}

/// Appends CPU hundredths as a decimal with two fractional digits.
fn write_cpu(out: &mut Vec<u8>, centi: u64)
    ensures
        final(out)@ == old(out)@ + enc_cpu(centi),
{
    let ghost base = old(out)@;
    write_u64(out, centi / 100);
    out.push(DOT);
    out.push(48 + ((centi / 10) % 10) as u8);
    out.push(48 + (centi % 10) as u8);
    proof {
        assert((centi / 100) as nat == (centi as nat) / 100);
        assert(digit_byte(((centi / 10) % 10) as nat) == 48 + ((centi / 10) % 10) as u8);
        assert(digit_byte((centi % 10) as nat) == 48 + (centi % 10) as u8);
        assert(out@ =~= base + enc_cpu(centi));
    }
}

/// Appends one record as a JSON object.
#[verifier::rlimit(100)]
fn write_record(out: &mut Vec<u8>, r: &ProcessRecord)
    ensures
        final(out)@ == old(out)@ + enc_record(r@),
{
    let ghost base = old(out)@;
    let ghost s1 = lit_obj_pid();
    let ghost s2 = s1 + enc_u64(r@.pid as nat);
    let ghost s3 = s2 + lit_name();
    let ghost s4 = s3 + enc_string(r@.name);
    let ghost s5 = s4 + lit_cpu();
    let ghost s6 = s5 + enc_cpu(r@.cpu_centi_percent);
    let ghost s7 = s6 + lit_mem();
    let ghost s8 = s7 + enc_u64(r@.memory_kb as nat);
    let ghost s9 = s8 + lit_stamp();
    let ghost s10 = s9 + enc_string(r@.timestamp);
    out.push(123);
    out.push(34);
    out.push(112);
    out.push(105);
    out.push(100);
    out.push(34);
    out.push(58);
    proof {
        assert(out@ =~= base + s1);
    }
    write_u64(out, r.pid as u64);
    proof {
        assert((r.pid as u64) as nat == r@.pid as nat);
        assert(out@ =~= base + s2);
    }
    out.push(44);
    out.push(34);
    out.push(110);
    out.push(97);
    out.push(109);
    out.push(101);
    out.push(34);
    out.push(58);
    proof {
        assert(out@ =~= base + s3);
    }
    write_escaped(out, &r.name);
    proof {
        assert(out@ =~= base + s4);
    }
    out.push(44);
    out.push(34);
    out.push(99);
    out.push(112);
    out.push(117);
    out.push(95);
    out.push(117);
    out.push(115);
    out.push(97);
    out.push(103);
    out.push(101);
    out.push(34);
    out.push(58);
    proof {
        assert(out@ =~= base + s5);
    }
    write_cpu(out, r.cpu_centi_percent);
    proof {
        assert(out@ =~= base + s6);
    }
    out.push(44);
    out.push(34);
    out.push(109);
    out.push(101);
    out.push(109);
    out.push(111);
    out.push(114);
    out.push(121);
    out.push(95);
    out.push(107);
    out.push(98);
    out.push(34);
    out.push(58);
    proof {
        assert(out@ =~= base + s7);
    }
    write_u64(out, r.memory_kb);
    proof {
        assert(out@ =~= base + s8);
    }
    out.push(44);
    out.push(34);
    out.push(116);
    out.push(105);
    out.push(109);
    out.push(101);
    out.push(115);
    out.push(116);
    out.push(97);
    out.push(109);
    out.push(112);
    out.push(34);
    out.push(58);
    proof {
        assert(out@ =~= base + s9);
    }
    write_escaped(out, &r.timestamp);
    proof {
        assert(out@ =~= base + s10);
    }
    out.push(125);
    proof {
        assert(out@ =~= base + enc_record(r@));
    }
}

/// Serializes one report as its wire payload: the UTF-8 JSON object
/// `enc_report` describes. Total: any report value encodes.
#[verifier::rlimit(100)]
pub fn encode_report(r: &Report) -> (out: Vec<u8>)
    ensures
        out@ == enc_report(r@),
{
    let ghost rms = r@.top_processes;
    let ghost s1 = lit_obj_module();
    let ghost s2 = s1 + enc_string(r@.module);
    let ghost s3 = s2 + lit_count();
    let ghost s4 = s3 + enc_u64(r@.process_count as nat);
    let ghost s5 = s4 + lit_top();
    let ghost s6 = s5 + enc_records(rms);
    let ghost s7 = s6 + lit_stamp();
    let ghost s8 = s7 + enc_string(r@.timestamp);
    let mut out: Vec<u8> = Vec::new();
    out.push(123);
    out.push(34);
    out.push(109);
    out.push(111);
    out.push(100);
    out.push(117);
    out.push(108);
    out.push(101);
    out.push(34);
    out.push(58);
    proof {
        assert(out@ =~= s1);
    }
    write_escaped(&mut out, &r.module);
    proof {
        assert(out@ =~= s2);
    }
    out.push(44);
    out.push(34);
    out.push(112);
    out.push(114);
    out.push(111);
    out.push(99);
    out.push(101);
    out.push(115);
    out.push(115);
    out.push(95);
    out.push(99);
    out.push(111);
    out.push(117);
    out.push(110);
    out.push(116);
    out.push(34);
    out.push(58);
    proof {
        assert(out@ =~= s3);
    }
    write_u64(&mut out, r.process_count);
    proof {
        assert(out@ =~= s4);
    }
    out.push(44);
    out.push(34);
    out.push(116);
    out.push(111);
    out.push(112);
    out.push(95);
    out.push(112);
    out.push(114);
    out.push(111);
    out.push(99);
    out.push(101);
    out.push(115);
    out.push(115);
    out.push(101);
    out.push(115);
    out.push(34);
    out.push(58);
    out.push(91);
    proof {
        assert(out@ =~= s5);
    }
    if r.top_processes.len() == 0 {
        out.push(93);
        proof {
            assert(out@ =~= s6);
        }
    } else {
        write_record(&mut out, &r.top_processes[0]);
        proof {
            assert(rms[0] == r.top_processes@[0]@);
            assert(rms.drop_first() =~= rms.skip(1));
            assert(out@ + enc_records_tail(rms.skip(1)) =~= s5 + enc_records(rms));
        }
        let mut j: usize = 1;
        while j < r.top_processes.len()
            invariant
                1 <= j <= r.top_processes@.len(),
                rms == r@.top_processes,
                rms.len() == r.top_processes@.len(),
                out@ + enc_records_tail(rms.skip(j as int)) == s5 + enc_records(rms),
            decreases r.top_processes@.len() - j,
        {
            let ghost before = out@;
            out.push(44);
            write_record(&mut out, &r.top_processes[j]);
            proof {
                assert(rms[j as int] == r.top_processes@[j as int]@);
                let sk = rms.skip(j as int);
                assert(sk.len() > 0);
                assert(sk[0] == rms[j as int]);
                assert(sk.drop_first() =~= rms.skip(j as int + 1));
                assert(enc_records_tail(sk) == seq![COMMA] + enc_record(rms[j as int])
                    + enc_records_tail(rms.skip(j as int + 1)));
                assert(out@ =~= before + seq![COMMA] + enc_record(rms[j as int]));
                assert(out@ + enc_records_tail(rms.skip(j as int + 1)) =~= before
                    + enc_records_tail(sk));
            }
            j = j + 1;
        }
        out.push(93);
        proof {
            assert(rms.skip(rms.len() as int) =~= Seq::<RecordModel>::empty());
            assert(enc_records_tail(rms.skip(rms.len() as int)) == seq![RBRACK]);
            assert(out@ =~= s6);
        }
    }
    out.push(44);
    out.push(34);
    out.push(116);
    out.push(105);
    out.push(109);
    out.push(101);
    out.push(115);
    out.push(116);
    out.push(97);
    out.push(109);
    out.push(112);
    out.push(34);
    out.push(58);
    proof {
        assert(out@ =~= s7);
    }
    write_escaped(&mut out, &r.timestamp);
    proof {
        assert(out@ =~= s8);
    }
    out.push(125);
    proof {
        assert(out@ =~= enc_report(r@));
    }
    out
}

// ---------------------------------------------------------------------
// The executable decoder: each function matches the spec parser on the
// input's suffix at its position.
// ---------------------------------------------------------------------
proof fn lemma_digits_val_nonneg(ds: Seq<u8>)
    requires
        forall|i: int| 0 <= i < ds.len() ==> is_digit(#[trigger] ds[i]),
    ensures
        digits_val(ds) >= 0,
    decreases ds.len(),
{
    if ds.len() > 0 {
        assert forall|i: int| 0 <= i < ds.drop_last().len() implies is_digit(
            #[trigger] ds.drop_last()[i],
        ) by {
            assert(ds.drop_last()[i] == ds[i]);
        }
        lemma_digits_val_nonneg(ds.drop_last());
    }
}

proof fn lemma_digits_val_mono(p: Seq<u8>, q: Seq<u8>)
    requires
        forall|i: int| 0 <= i < p.len() ==> is_digit(#[trigger] p[i]),
        forall|i: int| 0 <= i < q.len() ==> is_digit(#[trigger] q[i]),
    ensures
        digits_val(p + q) >= digits_val(p),
    decreases q.len(),
{
    if q.len() == 0 {
        assert(p + q =~= p);
    } else {
        let q2 = q.drop_last();
        assert forall|i: int| 0 <= i < q2.len() implies is_digit(#[trigger] q2[i]) by {
            assert(q2[i] == q[i]);
        }
        lemma_digits_val_mono(p, q2);
        assert forall|i: int| 0 <= i < (p + q2).len() implies is_digit(#[trigger] (p + q2)[i]) by {
            if i < p.len() {
                assert((p + q2)[i] == p[i]);
            } else {
                assert((p + q2)[i] == q2[i - p.len()]);
            }
        }
        lemma_digits_val_nonneg(p + q2);
        assert((p + q).drop_last() =~= p + q2);
        assert((p + q).last() == q.last());
        assert(digits_val(p + q) == digits_val(p + q2) * 10 + q.last() - 48);
    }
}

/// Matches `lit` at `pos`.
fn ex_expect(bytes: &Vec<u8>, pos: usize, lit: &Vec<u8>) -> (r: Option<usize>)
    requires
        pos <= bytes@.len(),
    ensures
        match r {
            Some(p2) => pos <= p2 <= bytes@.len() && expect_lit(lit@, bytes@.skip(pos as int))
                == Some(bytes@.skip(p2 as int)),
            None => expect_lit(lit@, bytes@.skip(pos as int)) is None,
        },
{
    let ghost inp = bytes@.skip(pos as int);
    if bytes.len() - pos < lit.len() {
        proof {
            assert(inp.len() < lit@.len());
        }
        return None;
    }
    let mut i: usize = 0;
    while i < lit.len()
        invariant
            pos + lit@.len() <= bytes@.len(),
            bytes@.len() <= usize::MAX,
            i <= lit@.len(),
            inp == bytes@.skip(pos as int),
            forall|j: int| 0 <= j < i ==> bytes@[pos + j] == lit@[j],
        decreases lit@.len() - i,
    {
        proof {
            assert(pos + i < bytes@.len());
        }
        if bytes[pos + i] != lit[i] {
            proof {
                assert(inp.take(lit@.len() as int)[i as int] == bytes@[pos + i]);
                assert(inp.take(lit@.len() as int) != lit@);
            }
            return None;
        }
        i = i + 1;
    }
    proof {
        assert(inp.take(lit@.len() as int) =~= lit@);
        assert(inp.skip(lit@.len() as int) =~= bytes@.skip(pos as int + lit@.len() as int));
    }
    Some(pos + lit.len())
}

/// Reads a decimal unsigned integer at `pos`.
fn ex_parse_u64(bytes: &Vec<u8>, pos: usize) -> (r: Option<(u64, usize)>)
    requires
        pos <= bytes@.len(),
    ensures
        match r {
            Some(p) => pos < p.1 <= bytes@.len() && parse_u64(bytes@.skip(pos as int)) == Some(
                (p.0, bytes@.skip(p.1 as int)),
            ),
            None => parse_u64(bytes@.skip(pos as int)) is None,
        },
{
    let ghost inp = bytes@.skip(pos as int);
    let mut j: usize = pos;
    while j < bytes.len() && 48 <= bytes[j] && bytes[j] <= 57
        invariant
            pos <= j <= bytes@.len(),
            inp == bytes@.skip(pos as int),
            forall|m: int| pos <= m < j ==> is_digit(#[trigger] bytes@[m]),
        decreases bytes@.len() - j,
    {
        j = j + 1;
    }
    let k = j - pos;
    let ghost digits = inp.take(k as int);
    proof {
        assert forall|i: int| 0 <= i < digits.len() implies is_digit(#[trigger] digits[i]) by {
            assert(digits[i] == bytes@[pos + i]);
        }
        assert(inp =~= digits + inp.skip(k as int));
        if (k as int) < inp.len() {
            assert(inp.skip(k as int)[0] == bytes@[j as int]);
            assert(!is_digit(inp.skip(k as int)[0]));
        }
        lemma_digit_count_all(digits, inp.skip(k as int));
        assert(digit_count(inp) == k);
    }
    if k == 0 {
        return None;
    }
    let mut acc: u64 = 0;
    let mut m: usize = 0;
    while m < k
        invariant
            m <= k,
            k == j - pos,
            pos <= j <= bytes@.len(),
            bytes@.len() <= usize::MAX,
            inp == bytes@.skip(pos as int),
            digit_count(inp) == k,
            digits == inp.take(k as int),
            forall|i: int| 0 <= i < digits.len() ==> is_digit(#[trigger] digits[i]),
            digits.len() == k,
            acc == digits_val(digits.take(m as int)),
        decreases k - m,
    {
        proof {
            assert(pos + m < bytes@.len());
            assert(digits[m as int] == bytes@[pos + m]);
            assert(is_digit(digits[m as int]));
        }
        let d = bytes[pos + m] - 48;
        let threshold = (u64::MAX - (d as u64)) / 10;
        if acc > threshold {
            proof {
                let p = digits.take(m as int + 1);
                assert(p.drop_last() =~= digits.take(m as int));
                assert(p.last() == digits[m as int]);
                assert(digits_val(p) == digits_val(digits.take(m as int)) * 10 + p.last() - 48);
                let md = u64::MAX - (d as u64);
                vstd::arithmetic::div_mod::lemma_fundamental_div_mod(md as int, 10);
                assert(acc * 10 >= (threshold + 1) * 10);
                assert(digits_val(p) > u64::MAX);
                assert forall|i: int| 0 <= i < p.len() implies is_digit(#[trigger] p[i]) by {
                    assert(p[i] == digits[i]);
                }
                let q = digits.skip(m as int + 1);
                assert forall|i: int| 0 <= i < q.len() implies is_digit(#[trigger] q[i]) by {
                    assert(q[i] == digits[m as int + 1 + i]);
                }
                assert(digits =~= p + q);
                lemma_digits_val_mono(p, q);
                assert(digits_val(digits) > u64::MAX);
            }
            return None;
        }
        proof {
            let md = u64::MAX - (d as u64);
            vstd::arithmetic::div_mod::lemma_fundamental_div_mod(md as int, 10);
            assert(acc * 10 + d <= u64::MAX);
            let p = digits.take(m as int + 1);
            assert(p.drop_last() =~= digits.take(m as int));
            assert(p.last() == digits[m as int]);
            assert(digits_val(p) == digits_val(digits.take(m as int)) * 10 + p.last() - 48);
        }
        acc = acc * 10 + (d as u64);
        m = m + 1;
    }
    proof {
        assert(digits.take(k as int) =~= digits);
        assert(inp.skip(k as int) =~= bytes@.skip(pos as int + k as int));
        assert(parse_u64(inp) == Some((acc, bytes@.skip((pos + k) as int))));
    }
    Some((acc, pos + k))
}

/// Reads a CPU number with two fractional digits at `pos`.
fn ex_parse_cpu(bytes: &Vec<u8>, pos: usize) -> (r: Option<(u64, usize)>)
    requires
        pos <= bytes@.len(),
    ensures
        match r {
            Some(p) => pos < p.1 <= bytes@.len() && parse_cpu(bytes@.skip(pos as int)) == Some(
                (p.0, bytes@.skip(p.1 as int)),
            ),
            None => parse_cpu(bytes@.skip(pos as int)) is None,
        },
{
    let ghost inp = bytes@.skip(pos as int);
    let ip_parsed = ex_parse_u64(bytes, pos);
    match ip_parsed {
        None => None,
        Some((ip, p1)) => {
            let ghost r = bytes@.skip(p1 as int);
            if bytes.len() - p1 < 3 {
                proof {
                    assert(r.len() < 3);
                }
                return None;
            }
            let c0 = bytes[p1];
            let c1 = bytes[p1 + 1];
            let c2 = bytes[p1 + 2];
            proof {
                assert(r[0] == c0);
                assert(r[1] == c1);
                assert(r[2] == c2);
            }
            if c0 != DOT || c1 < 48 || c1 > 57 || c2 < 48 || c2 > 57 {
                return None;
            }
            let x = ((c1 - 48) as u64) * 10 + ((c2 - 48) as u64);
            let threshold = (u64::MAX - x) / 100;
            if ip > threshold {
                proof {
                    let mx = u64::MAX - x;
                    vstd::arithmetic::div_mod::lemma_fundamental_div_mod(mx as int, 100);
                    assert(ip * 100 >= (threshold + 1) * 100);
                    assert((ip as int) * 100 + (c1 - 48) * 10 + (c2 - 48) > u64::MAX);
                }
                return None;
            }
            proof {
                let mx = u64::MAX - x;
                vstd::arithmetic::div_mod::lemma_fundamental_div_mod(mx as int, 100);
                assert(ip * 100 <= mx);
                assert(r.skip(3) =~= bytes@.skip(p1 as int + 3));
            }
            let v = ip * 100 + x;
            Some((v, p1 + 3))
        },
    }
}

/// A parse result with `prefix` put before the parsed string part.
pub open spec fn prepend_bytes(prefix: Seq<u8>, r: Option<(Seq<u8>, Seq<u8>)>) -> Option<
    (Seq<u8>, Seq<u8>),
> {
    match r {
        Some(p) => Some((prefix + p.0, p.1)),
        None => None,
    }
}

/// Reads a quoted, escaped string at `pos`.
fn ex_parse_string(bytes: &Vec<u8>, pos: usize) -> (r: Option<(Vec<u8>, usize)>)
    requires
        pos <= bytes@.len(),
    ensures
        match r {
            Some(p) => pos < p.1 <= bytes@.len() && parse_string(bytes@.skip(pos as int)) == Some(
                (p.0@, bytes@.skip(p.1 as int)),
            ),
            None => parse_string(bytes@.skip(pos as int)) is None,
        },
{
    let ghost inp = bytes@.skip(pos as int);
    if pos == bytes.len() || bytes[pos] != QUOTE {
        proof {
            if inp.len() > 0 {
                assert(inp[0] == bytes@[pos as int]);
            }
        }
        return None;
    }
    proof {
        assert(inp[0] == QUOTE);
        assert(inp.drop_first() =~= bytes@.skip(pos as int + 1));
    }
    let mut out: Vec<u8> = Vec::new();
    let mut j: usize = pos + 1;
    while j < bytes.len()
        invariant
            pos + 1 <= j <= bytes@.len(),
            bytes@.len() <= usize::MAX,
            inp == bytes@.skip(pos as int),
            parse_string(inp) == parse_str_rest(bytes@.skip(pos as int + 1)),
            parse_str_rest(bytes@.skip(pos as int + 1)) == prepend_bytes(
                out@,
                parse_str_rest(bytes@.skip(j as int)),
            ),
        decreases bytes@.len() - j,
    {
        let ghost cur = bytes@.skip(j as int);
        proof {
            assert(cur.len() > 0);
            assert(cur[0] == bytes@[j as int]);
            assert(cur.drop_first() =~= bytes@.skip(j as int + 1));
        }
        let b = bytes[j];
        if b == QUOTE {
            proof {
                assert(parse_str_rest(cur) == Some(
                    (Seq::<u8>::empty(), bytes@.skip(j as int + 1)),
                ));
                assert(out@ + Seq::<u8>::empty() =~= out@);
            }
            return Some((out, j + 1));
        } else if b == BSLASH {
            if j + 1 == bytes.len() {
                proof {
                    assert(cur.len() < 2);
                    assert(parse_str_rest(cur) is None);
                }
                return None;
            }
            proof {
                assert(cur.len() >= 2);
                assert(cur[1] == bytes@[j as int + 1]);
            }
            let b2 = bytes[j + 1];
            if b2 == QUOTE || b2 == BSLASH {
                proof {
                    assert(cur.skip(2) =~= bytes@.skip(j as int + 2));
                    let x = parse_str_rest(bytes@.skip(j as int + 2));
                    if x is Some {
                        assert(parse_str_rest(cur) == Some((seq![b2] + x->Some_0.0, x->Some_0.1)));
                        assert(out@ + (seq![b2] + x->Some_0.0) =~= out@.push(b2) + x->Some_0.0);
                    } else {
                        assert(parse_str_rest(cur) is None);
                    }
                }
                out.push(b2);
                j = j + 2;
            } else if b2 == 117 {
                if bytes.len() - j < 6 {
                    proof {
                        assert(cur.len() < 6);
                        assert(parse_str_rest(cur) is None);
                    }
                    return None;
                }
                proof {
                    assert(cur.len() >= 6);
                    assert(cur[2] == bytes@[j as int + 2]);
                    assert(cur[3] == bytes@[j as int + 3]);
                    assert(cur[4] == bytes@[j as int + 4]);
                    assert(cur[5] == bytes@[j as int + 5]);
                }
                let c2 = bytes[j + 2];
                let c3 = bytes[j + 3];
                let c4 = bytes[j + 4];
                let c5 = bytes[j + 5];
                if c2 != 48 || c3 != 48 {
                    proof {
                        assert(parse_str_rest(cur) is None);
                    }
                    return None;
                }
                let hex4 = (48 <= c4 && c4 <= 57) || (97 <= c4 && c4 <= 102);
                let hex5 = (48 <= c5 && c5 <= 57) || (97 <= c5 && c5 <= 102);
                if !hex4 || !hex5 {
                    proof {
                        assert(parse_str_rest(cur) is None);
                    }
                    return None;
                }
                let hv4 = if c4 <= 57 {
                    c4 - 48
                } else {
                    c4 - 87
                };
                let hv5 = if c5 <= 57 {
                    c5 - 48
                } else {
                    c5 - 87
                };
                let value = hv4 * 16 + hv5;
                proof {
                    assert(hv4 == hex_val(cur[4]));
                    assert(hv5 == hex_val(cur[5]));
                    assert(hex_val(cur[4]) * 16 + hex_val(cur[5]) == value);
                    assert(cur.skip(6) =~= bytes@.skip(j as int + 6));
                    let x = parse_str_rest(bytes@.skip(j as int + 6));
                    if x is Some {
                        assert(parse_str_rest(cur) == Some(
                            (seq![value] + x->Some_0.0, x->Some_0.1),
                        ));
                        assert(out@ + (seq![value] + x->Some_0.0) =~= out@.push(value)
                            + x->Some_0.0);
                    } else {
                        assert(parse_str_rest(cur) is None);
                    }
                }
                out.push(value);
                j = j + 6;
            } else {
                proof {
                    assert(parse_str_rest(cur) is None);
                }
                return None;
            }
        } else {
            proof {
                let x = parse_str_rest(bytes@.skip(j as int + 1));
                if x is Some {
                    assert(parse_str_rest(cur) == Some((seq![b] + x->Some_0.0, x->Some_0.1)));
                    assert(out@ + (seq![b] + x->Some_0.0) =~= out@.push(b) + x->Some_0.0);
                } else {
                    assert(parse_str_rest(cur) is None);
                }
            }
            out.push(b);
            j = j + 1;
        }
    }
    proof {
        assert(bytes@.skip(j as int).len() == 0);
        assert(parse_str_rest(bytes@.skip(j as int)) is None);
    }
    None
}

/// Reads one record object at `pos`.
#[verifier::rlimit(100)]
fn ex_parse_record(bytes: &Vec<u8>, pos: usize) -> (r: Option<(ProcessRecord, usize)>)
    requires
        pos <= bytes@.len(),
    ensures
        match r {
            Some(p) => pos < p.1 <= bytes@.len() && parse_record(bytes@.skip(pos as int)) == Some(
                (p.0@, bytes@.skip(p.1 as int)),
            ),
            None => parse_record(bytes@.skip(pos as int)) is None,
        },
{
    let lit1 = vec![123u8, 34u8, 112u8, 105u8, 100u8, 34u8, 58u8];
    proof {
        assert(lit1@ =~= lit_obj_pid());
    }
    let p1 = match ex_expect(bytes, pos, &lit1) {
        Some(p) => p,
        None => {
            return None;
        },
    };
    let (pid64, p2) = match ex_parse_u64(bytes, p1) {
        Some(p) => p,
        None => {
            return None;
        },
    };
    if pid64 > u32::MAX as u64 {
        return None;
    }
    let lit2 = vec![44u8, 34u8, 110u8, 97u8, 109u8, 101u8, 34u8, 58u8];
    proof {
        assert(lit2@ =~= lit_name());
    }
    let p3 = match ex_expect(bytes, p2, &lit2) {
        Some(p) => p,
        None => {
            return None;
        },
    };
    let (name, p4) = match ex_parse_string(bytes, p3) {
        Some(p) => p,
        None => {
            return None;
        },
    };
    let lit3 = vec![
        44u8,
        34u8,
        99u8,
        112u8,
        117u8,
        95u8,
        117u8,
        115u8,
        97u8,
        103u8,
        101u8,
        34u8,
        58u8,
    ];
    proof {
        assert(lit3@ =~= lit_cpu());
    }
    let p5 = match ex_expect(bytes, p4, &lit3) {
        Some(p) => p,
        None => {
            return None;
        },
    };
    let (cpu, p6) = match ex_parse_cpu(bytes, p5) {
        Some(p) => p,
        None => {
            return None;
        },
    };
    let lit4 = vec![
        44u8,
        34u8,
        109u8,
        101u8,
        109u8,
        111u8,
        114u8,
        121u8,
        95u8,
        107u8,
        98u8,
        34u8,
        58u8,
    ];
    proof {
        assert(lit4@ =~= lit_mem());
    }
    let p7 = match ex_expect(bytes, p6, &lit4) {
        Some(p) => p,
        None => {
            return None;
        },
    };
    let (mem, p8) = match ex_parse_u64(bytes, p7) {
        Some(p) => p,
        None => {
            return None;
        },
    };
    let lit5 = vec![
        44u8,
        34u8,
        116u8,
        105u8,
        109u8,
        101u8,
        115u8,
        116u8,
        97u8,
        109u8,
        112u8,
        34u8,
        58u8,
    ];
    proof {
        assert(lit5@ =~= lit_stamp());
    }
    let p9 = match ex_expect(bytes, p8, &lit5) {
        Some(p) => p,
        None => {
            return None;
        },
    };
    let (stamp, p10) = match ex_parse_string(bytes, p9) {
        Some(p) => p,
        None => {
            return None;
        },
    };
    let litb = vec![125u8];
    proof {
        assert(litb@ =~= seq![RBRACE]);
    }
    let p11 = match ex_expect(bytes, p10, &litb) {
        Some(p) => p,
        None => {
            return None;
        },
    };
    let rec = ProcessRecord {
        pid: pid64 as u32,
        name,
        cpu_centi_percent: cpu,
        memory_kb: mem,
        timestamp: stamp,
    };
    Some((rec, p11))
}

/// A parse result with `prefix` put before the parsed records.
pub open spec fn prepend_records(
    prefix: Seq<RecordModel>,
    r: Option<(Seq<RecordModel>, Seq<u8>)>,
) -> Option<(Seq<RecordModel>, Seq<u8>)> {
    match r {
        Some(p) => Some((prefix + p.0, p.1)),
        None => None,
    }
}

/// Reads a record array's content and its closing bracket at `pos`.
#[verifier::rlimit(100)]
fn ex_parse_records(bytes: &Vec<u8>, pos: usize) -> (r: Option<(Vec<ProcessRecord>, usize)>)
    requires
        pos <= bytes@.len(),
    ensures
        match r {
            Some(p) => pos < p.1 <= bytes@.len() && parse_records(bytes@.skip(pos as int)) == Some(
                (models(p.0@), bytes@.skip(p.1 as int)),
            ),
            None => parse_records(bytes@.skip(pos as int)) is None,
        },
{
    let ghost inp = bytes@.skip(pos as int);
    if pos == bytes.len() {
        return None;
    }
    proof {
        assert(inp[0] == bytes@[pos as int]);
    }
    if bytes[pos] == RBRACK {
        let out: Vec<ProcessRecord> = Vec::new();
        proof {
            assert(models(out@) =~= Seq::<RecordModel>::empty());
            assert(inp.drop_first() =~= bytes@.skip(pos as int + 1));
        }
        return Some((out, pos + 1));
    }
    let (rec0, start) = match ex_parse_record(bytes, pos) {
        Some(p) => p,
        None => {
            return None;
        },
    };
    let mut out: Vec<ProcessRecord> = Vec::new();
    out.push(rec0);
    let mut cur: usize = start;
    proof {
        assert(models(out@) =~= seq![out@[0]@]);
        assert(parse_records(inp) == prepend_records(
            models(out@),
            parse_records_tail(bytes@.skip(cur as int)),
        ));
    }
    while cur < bytes.len()
        invariant
            pos < cur <= bytes@.len(),
            bytes@.len() <= usize::MAX,
            inp == bytes@.skip(pos as int),
            parse_records(inp) == prepend_records(
                models(out@),
                parse_records_tail(bytes@.skip(cur as int)),
            ),
        decreases bytes@.len() - cur,
    {
        let ghost tail = bytes@.skip(cur as int);
        proof {
            assert(tail.len() > 0);
            assert(tail[0] == bytes@[cur as int]);
        }
        let b = bytes[cur];
        if b == RBRACK {
            proof {
                assert(tail.drop_first() =~= bytes@.skip(cur as int + 1));
                assert(parse_records_tail(tail) == Some(
                    (Seq::<RecordModel>::empty(), bytes@.skip(cur as int + 1)),
                ));
                assert(models(out@) + Seq::<RecordModel>::empty() =~= models(out@));
            }
            return Some((out, cur + 1));
        } else if b == COMMA {
            proof {
                assert(tail.drop_first() =~= bytes@.skip(cur as int + 1));
            }
            let parsed = ex_parse_record(bytes, cur + 1);
            match parsed {
                None => {
                    proof {
                        assert(parse_records_tail(tail) is None);
                    }
                    return None;
                },
                Some((rec, p2)) => {
                    proof {
                        assert(bytes@.skip(p2 as int).len() < tail.len());
                        let x = parse_records_tail(bytes@.skip(p2 as int));
                        if x is Some {
                            assert(parse_records_tail(tail) == Some(
                                (seq![rec@] + x->Some_0.0, x->Some_0.1),
                            ));
                            assert(models(out@.push(rec)) =~= models(out@) + seq![rec@]);
                            assert(models(out@) + (seq![rec@] + x->Some_0.0) =~= models(
                                out@.push(rec),
                            ) + x->Some_0.0);
                        } else {
                            assert(parse_records_tail(tail) is None);
                            assert(models(out@.push(rec)) =~= models(out@) + seq![rec@]);
                        }
                    }
                    out.push(rec);
                    cur = p2;
                },
            }
        } else {
            proof {
                assert(parse_records_tail(tail) is None);
            }
            return None;
        }
    }
    proof {
        assert(bytes@.skip(cur as int).len() == 0);
        assert(parse_records_tail(bytes@.skip(cur as int)) is None);
    }
    None
}

/// Reads one report object at `pos`.
#[verifier::rlimit(100)]
fn ex_parse_report(bytes: &Vec<u8>, pos: usize) -> (r: Option<(Report, usize)>)
    requires
        pos <= bytes@.len(),
    ensures
        match r {
            Some(p) => pos < p.1 <= bytes@.len() && parse_report(bytes@.skip(pos as int)) == Some(
                (p.0@, bytes@.skip(p.1 as int)),
            ),
            None => parse_report(bytes@.skip(pos as int)) is None,
        },
{
    let lit1 = vec![123u8, 34u8, 109u8, 111u8, 100u8, 117u8, 108u8, 101u8, 34u8, 58u8];
    proof {
        assert(lit1@ =~= lit_obj_module());
    }
    let p1 = match ex_expect(bytes, pos, &lit1) {
        Some(p) => p,
        None => {
            return None;
        },
    };
    let (module, p2) = match ex_parse_string(bytes, p1) {
        Some(p) => p,
        None => {
            return None;
        },
    };
    let lit2 = vec![
        44u8,
        34u8,
        112u8,
        114u8,
        111u8,
        99u8,
        101u8,
        115u8,
        115u8,
        95u8,
        99u8,
        111u8,
        117u8,
        110u8,
        116u8,
        34u8,
        58u8,
    ];
    proof {
        assert(lit2@ =~= lit_count());
    }
    let p3 = match ex_expect(bytes, p2, &lit2) {
        Some(p) => p,
        None => {
            return None;
        },
    };
    let (count, p4) = match ex_parse_u64(bytes, p3) {
        Some(p) => p,
        None => {
            return None;
        },
    };
    let lit3 = vec![
        44u8,
        34u8,
        116u8,
        111u8,
        112u8,
        95u8,
        112u8,
        114u8,
        111u8,
        99u8,
        101u8,
        115u8,
        115u8,
        101u8,
        115u8,
        34u8,
        58u8,
        91u8,
    ];
    proof {
        assert(lit3@ =~= lit_top());
    }
    let p5 = match ex_expect(bytes, p4, &lit3) {
        Some(p) => p,
        None => {
            return None;
        },
    };
    let (tops, p6) = match ex_parse_records(bytes, p5) {
        Some(p) => p,
        None => {
            return None;
        },
    };
    let lit4 = vec![
        44u8,
        34u8,
        116u8,
        105u8,
        109u8,
        101u8,
        115u8,
        116u8,
        97u8,
        109u8,
        112u8,
        34u8,
        58u8,
    ];
    proof {
        assert(lit4@ =~= lit_stamp());
    }
    let p7 = match ex_expect(bytes, p6, &lit4) {
        Some(p) => p,
        None => {
            return None;
        },
    };
    let (stamp, p8) = match ex_parse_string(bytes, p7) {
        Some(p) => p,
        None => {
            return None;
        },
    };
    let litb = vec![125u8];
    proof {
        assert(litb@ =~= seq![RBRACE]);
    }
    let p9 = match ex_expect(bytes, p8, &litb) {
        Some(p) => p,
        None => {
            return None;
        },
    };
    let report = Report { module, process_count: count, top_processes: tops, timestamp: stamp };
    Some((report, p9))
}

/// Parses a wire payload back into a report: `Some` exactly on the
/// payloads `dec_report` accepts, and then with that report.
pub fn decode_report(bytes: &Vec<u8>) -> (r: Option<Report>)
    ensures
        match r {
            Some(rep) => dec_report(bytes@) == Some(rep@),
            None => dec_report(bytes@) is None,
        },
{
    proof {
        assert(bytes@.skip(0) =~= bytes@);
    }
    match ex_parse_report(bytes, 0) {
        Some((rep, p)) => {
            if p == bytes.len() {
                proof {
                    assert(bytes@.skip(p as int).len() == 0);
                }
                Some(rep)
            } else {
                proof {
                    assert(bytes@.skip(p as int).len() != 0);
                }
                None
            }
        },
        None => None,
    }
}

} // verus!
