//! The sidecar file codec: the canonical, human-readable persisted form of
//! a metadata record, and its strict parser. The encoder pins every byte of
//! the output; the parser is the encoder's exact mirror, so a record round
//! trips through its sidecar file unchanged.

use vstd::prelude::*;
use crate::meta::{KindModel, MetaModel, Op, PageRange, SectionDefinition, SectionKind,
    SectionModel, SourceMeta, Span};

verus! {

/// The bytes of `{\n\t"hash": `.
pub open spec fn lit_head() -> Seq<u8> {
    seq![123u8, 10, 9, 34, 104, 97, 115, 104, 34, 58, 32]
}

fn mk_head() -> (r: Vec<u8>)
    ensures
        r@ == lit_head(),
{
    let r: Vec<u8> = vec![123u8, 10, 9, 34, 104, 97, 115, 104, 34, 58, 32];
    proof {
        assert(r@ =~= lit_head());
    }
    r
}

/// The bytes of `,\n\t"timestamp": `.
pub open spec fn lit_ts() -> Seq<u8> {
    seq![44u8, 10, 9, 34, 116, 105, 109, 101, 115, 116, 97, 109, 112, 34, 58, 32]
}

fn mk_ts() -> (r: Vec<u8>)
    ensures
        r@ == lit_ts(),
{
    let r: Vec<u8> = vec![44u8, 10, 9, 34, 116, 105, 109, 101, 115, 116, 97, 109, 112, 34, 58, 32];
    proof {
        assert(r@ =~= lit_ts());
    }
    r
}

/// The bytes of `,\n\t"sections": [`.
pub open spec fn lit_secs() -> Seq<u8> {
    seq![44u8, 10, 9, 34, 115, 101, 99, 116, 105, 111, 110, 115, 34, 58, 32, 91]
}

fn mk_secs() -> (r: Vec<u8>)
    ensures
        r@ == lit_secs(),
{
    let r: Vec<u8> = vec![44u8, 10, 9, 34, 115, 101, 99, 116, 105, 111, 110, 115, 34, 58, 32, 91];
    proof {
        assert(r@ =~= lit_secs());
    }
    r
}

/// The bytes of `]\n}`.
pub open spec fn lit_secs_none() -> Seq<u8> {
    seq![93u8, 10, 125]
}

fn mk_secs_none() -> (r: Vec<u8>)
    ensures
        r@ == lit_secs_none(),
{
    let r: Vec<u8> = vec![93u8, 10, 125];
    proof {
        assert(r@ =~= lit_secs_none());
    }
    r
}

/// The bytes of `\n`.
pub open spec fn lit_nl() -> Seq<u8> {
    seq![10u8]
}

fn mk_nl() -> (r: Vec<u8>)
    ensures
        r@ == lit_nl(),
{
    let r: Vec<u8> = vec![10u8];
    proof {
        assert(r@ =~= lit_nl());
    }
    r
}

/// The bytes of `,\n`.
pub open spec fn lit_sep() -> Seq<u8> {
    seq![44u8, 10]
}

fn mk_sep() -> (r: Vec<u8>)
    ensures
        r@ == lit_sep(),
{
    let r: Vec<u8> = vec![44u8, 10];
    proof {
        assert(r@ =~= lit_sep());
    }
    r
}

/// The bytes of `\n\t]\n}`.
pub open spec fn lit_secs_end() -> Seq<u8> {
    seq![10u8, 9, 93, 10, 125]
}

fn mk_secs_end() -> (r: Vec<u8>)
    ensures
        r@ == lit_secs_end(),
{
    let r: Vec<u8> = vec![10u8, 9, 93, 10, 125];
    proof {
        assert(r@ =~= lit_secs_end());
    }
    r
}

/// The bytes of `\t\t{\n\t\t\t"name": `.
pub open spec fn lit_sec_pre() -> Seq<u8> {
    seq![9u8, 9, 123, 10, 9, 9, 9, 34, 110, 97, 109, 101, 34, 58, 32]
}

fn mk_sec_pre() -> (r: Vec<u8>)
    ensures
        r@ == lit_sec_pre(),
{
    let r: Vec<u8> = vec![9u8, 9, 123, 10, 9, 9, 9, 34, 110, 97, 109, 101, 34, 58, 32];
    proof {
        assert(r@ =~= lit_sec_pre());
    }
    r
}

/// The bytes of `,\n\t\t\t"pages": [`.
pub open spec fn lit_pages() -> Seq<u8> {
    seq![44u8, 10, 9, 9, 9, 34, 112, 97, 103, 101, 115, 34, 58, 32, 91]
}

fn mk_pages() -> (r: Vec<u8>)
    ensures
        r@ == lit_pages(),
{
    let r: Vec<u8> = vec![44u8, 10, 9, 9, 9, 34, 112, 97, 103, 101, 115, 34, 58, 32, 91];
    proof {
        assert(r@ =~= lit_pages());
    }
    r
}

/// The bytes of `, `.
pub open spec fn lit_comma() -> Seq<u8> {
    seq![44u8, 32]
}

fn mk_comma() -> (r: Vec<u8>)
    ensures
        r@ == lit_comma(),
{
    let r: Vec<u8> = vec![44u8, 32];
    proof {
        assert(r@ =~= lit_comma());
    }
    r
}

/// The bytes of `],\n\t\t\t"span": `.
pub open spec fn lit_span() -> Seq<u8> {
    seq![93u8, 44, 10, 9, 9, 9, 34, 115, 112, 97, 110, 34, 58, 32]
}

fn mk_span() -> (r: Vec<u8>)
    ensures
        r@ == lit_span(),
{
    let r: Vec<u8> = vec![93u8, 44, 10, 9, 9, 9, 34, 115, 112, 97, 110, 34, 58, 32];
    proof {
        assert(r@ =~= lit_span());
    }
    r
}

/// The bytes of `null`.
pub open spec fn lit_null() -> Seq<u8> {
    seq![110u8, 117, 108, 108]
}

fn mk_null() -> (r: Vec<u8>)
    ensures
        r@ == lit_null(),
{
    let r: Vec<u8> = vec![110u8, 117, 108, 108];
    proof {
        assert(r@ =~= lit_null());
    }
    r
}

/// The bytes of `{"range": [`.
pub open spec fn lit_range_pre() -> Seq<u8> {
    seq![123u8, 34, 114, 97, 110, 103, 101, 34, 58, 32, 91]
}

fn mk_range_pre() -> (r: Vec<u8>)
    ensures
        r@ == lit_range_pre(),
{
    let r: Vec<u8> = vec![123u8, 34, 114, 97, 110, 103, 101, 34, 58, 32, 91];
    proof {
        assert(r@ =~= lit_range_pre());
    }
    r
}

/// The bytes of `]}`.
pub open spec fn lit_rb_cb() -> Seq<u8> {
    seq![93u8, 125]
}

fn mk_rb_cb() -> (r: Vec<u8>)
    ensures
        r@ == lit_rb_cb(),
{
    let r: Vec<u8> = vec![93u8, 125];
    proof {
        assert(r@ =~= lit_rb_cb());
    }
    r
}

/// The bytes of `{"from": `.
pub open spec fn lit_from_pre() -> Seq<u8> {
    seq![123u8, 34, 102, 114, 111, 109, 34, 58, 32]
}

fn mk_from_pre() -> (r: Vec<u8>)
    ensures
        r@ == lit_from_pre(),
{
    let r: Vec<u8> = vec![123u8, 34, 102, 114, 111, 109, 34, 58, 32];
    proof {
        assert(r@ =~= lit_from_pre());
    }
    r
}

/// The bytes of `}`.
pub open spec fn lit_cb() -> Seq<u8> {
    seq![125u8]
}

fn mk_cb() -> (r: Vec<u8>)
    ensures
        r@ == lit_cb(),
{
    let r: Vec<u8> = vec![125u8];
    proof {
        assert(r@ =~= lit_cb());
    }
    r
}

/// The bytes of `,\n\t\t\t"kind": `.
pub open spec fn lit_kind() -> Seq<u8> {
    seq![44u8, 10, 9, 9, 9, 34, 107, 105, 110, 100, 34, 58, 32]
}

fn mk_kind() -> (r: Vec<u8>)
    ensures
        r@ == lit_kind(),
{
    let r: Vec<u8> = vec![44u8, 10, 9, 9, 9, 34, 107, 105, 110, 100, 34, 58, 32];
    proof {
        assert(r@ =~= lit_kind());
    }
    r
}

/// The bytes of `"condition"`.
pub open spec fn lit_cond() -> Seq<u8> {
    seq![34u8, 99, 111, 110, 100, 105, 116, 105, 111, 110, 34]
}

fn mk_cond() -> (r: Vec<u8>)
    ensures
        r@ == lit_cond(),
{
    let r: Vec<u8> = vec![34u8, 99, 111, 110, 100, 105, 116, 105, 111, 110, 34];
    proof {
        assert(r@ =~= lit_cond());
    }
    r
}

/// The bytes of `"tilt"`.
pub open spec fn lit_tilt() -> Seq<u8> {
    seq![34u8, 116, 105, 108, 116, 34]
}

fn mk_tilt() -> (r: Vec<u8>)
    ensures
        r@ == lit_tilt(),
{
    let r: Vec<u8> = vec![34u8, 116, 105, 108, 116, 34];
    proof {
        assert(r@ =~= lit_tilt());
    }
    r
}

/// The bytes of `{"merit": null}`.
pub open spec fn lit_merit_none() -> Seq<u8> {
    seq![123u8, 34, 109, 101, 114, 105, 116, 34, 58, 32, 110, 117, 108, 108, 125]
}

fn mk_merit_none() -> (r: Vec<u8>)
    ensures
        r@ == lit_merit_none(),
{
    let r: Vec<u8> = vec![123u8, 34, 109, 101, 114, 105, 116, 34, 58, 32, 110, 117, 108, 108, 125];
    proof {
        assert(r@ =~= lit_merit_none());
    }
    r
}

/// The bytes of `{"merit": `.
pub open spec fn lit_merit_pre() -> Seq<u8> {
    seq![123u8, 34, 109, 101, 114, 105, 116, 34, 58, 32]
}

fn mk_merit_pre() -> (r: Vec<u8>)
    ensures
        r@ == lit_merit_pre(),
{
    let r: Vec<u8> = vec![123u8, 34, 109, 101, 114, 105, 116, 34, 58, 32];
    proof {
        assert(r@ =~= lit_merit_pre());
    }
    r
}

/// The bytes of `,\n\t\t\t"ops": [`.
pub open spec fn lit_ops() -> Seq<u8> {
    seq![44u8, 10, 9, 9, 9, 34, 111, 112, 115, 34, 58, 32, 91]
}

fn mk_ops() -> (r: Vec<u8>)
    ensures
        r@ == lit_ops(),
{
    let r: Vec<u8> = vec![44u8, 10, 9, 9, 9, 34, 111, 112, 115, 34, 58, 32, 91];
    proof {
        assert(r@ =~= lit_ops());
    }
    r
}

/// The bytes of `]`.
pub open spec fn lit_ops_none() -> Seq<u8> {
    seq![93u8]
}

fn mk_ops_none() -> (r: Vec<u8>)
    ensures
        r@ == lit_ops_none(),
{
    let r: Vec<u8> = vec![93u8];
    proof {
        assert(r@ =~= lit_ops_none());
    }
    r
}

/// The bytes of `\n\t\t\t]`.
pub open spec fn lit_ops_end() -> Seq<u8> {
    seq![10u8, 9, 9, 9, 93]
}

fn mk_ops_end() -> (r: Vec<u8>)
    ensures
        r@ == lit_ops_end(),
{
    let r: Vec<u8> = vec![10u8, 9, 9, 9, 93];
    proof {
        assert(r@ =~= lit_ops_end());
    }
    r
}

/// The bytes of `\t\t\t\t{"delete": {"range": [`.
pub open spec fn lit_op_pre() -> Seq<u8> {
    seq![9u8, 9, 9, 9, 123, 34, 100, 101, 108, 101, 116, 101, 34, 58, 32, 123, 34, 114, 97, 110, 103, 101, 34, 58, 32, 91]
}

fn mk_op_pre() -> (r: Vec<u8>)
    ensures
        r@ == lit_op_pre(),
{
    let r: Vec<u8> = vec![9u8, 9, 9, 9, 123, 34, 100, 101, 108, 101, 116, 101, 34, 58, 32, 123, 34, 114, 97, 110, 103, 101, 34, 58, 32, 91];
    proof {
        assert(r@ =~= lit_op_pre());
    }
    r
}

/// The bytes of `]}}`.
pub open spec fn lit_op_post() -> Seq<u8> {
    seq![93u8, 125, 125]
}

fn mk_op_post() -> (r: Vec<u8>)
    ensures
        r@ == lit_op_post(),
{
    let r: Vec<u8> = vec![93u8, 125, 125];
    proof {
        assert(r@ =~= lit_op_post());
    }
    r
}

/// The bytes of `\n\t\t}`.
pub open spec fn lit_sec_end() -> Seq<u8> {
    seq![10u8, 9, 9, 125]
}

fn mk_sec_end() -> (r: Vec<u8>)
    ensures
        r@ == lit_sec_end(),
{
    let r: Vec<u8> = vec![10u8, 9, 9, 125];
    proof {
        assert(r@ =~= lit_sec_end());
    }
    r
}

/// Appends the bytes of `l` to `out`.
#[verifier::loop_isolation(false)]
fn push_bytes(out: &mut Vec<u8>, l: &Vec<u8>)
    ensures
        final(out)@ == old(out)@ + l@,
{
    let mut j: usize = 0;
    proof {
        assert(out@ =~= out@ + l@.subrange(0, 0));
    }
    while j < l.len()
        invariant
            j <= l@.len(),
            out@ == old(out)@ + l@.subrange(0, j as int),
        decreases l@.len() - j,
    {
        out.push(l[j]);
        proof {
            assert(l@.subrange(0, (j + 1) as int) =~= l@.subrange(0, j as int).push(l@[j as int]));
        }
        j += 1;
    }
    proof {
        assert(l@.subrange(0, l@.len() as int) =~= l@);
    }
}

/// The position just past `l` when `l` occurs in `s` at position `i`.
pub open spec fn spec_expect(s: Seq<u8>, i: int, l: Seq<u8>) -> Option<int> {
    if 0 <= i && i + l.len() <= s.len() && s.subrange(i, i + l.len()) == l {
        Some(i + l.len())
    } else {
        None
    }
}

/// Checks that the bytes of `l` stand in `s` at position `i`.
#[verifier::loop_isolation(false)]
fn expect_bytes(s: &Vec<u8>, i: usize, l: &Vec<u8>) -> (r: Option<usize>)
    ensures
        r matches Some(j) ==> spec_expect(s@, i as int, l@) == Some(j as int) && j == i + l@.len()
            && j <= s@.len(),
        r is None ==> spec_expect(s@, i as int, l@) is None,
{
    if l.len() > s.len() || i > s.len() - l.len() {
        return None;
    }
    let mut k: usize = 0;
    while k < l.len()
        invariant
            k <= l@.len(),
            forall|t: int| 0 <= t < k ==> s@[i + t] == l@[t],
        decreases l@.len() - k,
    {
        if s[i + k] != l[k] {
            proof {
                assert(s@.subrange(i as int, i + l@.len())[k as int] != l@[k as int]);
            }
            return None;
        }
        k += 1;
    }
    proof {
        assert(s@.subrange(i as int, i + l@.len()) =~= l@);
    }
    Some(i + l.len())
}

/// Whether a byte is an ASCII decimal digit.
pub open spec fn is_digit(b: u8) -> bool {
    48 <= b <= 57
}

/// The ASCII decimal representation of `n`.
pub open spec fn dec_rep(n: u64) -> Seq<u8>
    decreases n,
{
    if n < 10 {
        seq![(48 + n) as u8]
    } else {
        dec_rep((n / 10) as u64).push((48 + n % 10) as u8)
    }
}

/// Writes `n` in decimal.
fn emit_u64(out: &mut Vec<u8>, n: u64)
    ensures
        final(out)@ == old(out)@ + dec_rep(n),
    decreases n,
{
    if n >= 10 {
        emit_u64(out, n / 10);
    }
    out.push(48 + (n % 10) as u8);
    proof {
        assert(old(out)@ + dec_rep(n) =~= out@);
    }
}

/// Writes `n` in decimal.
fn emit_usize(out: &mut Vec<u8>, n: usize)
    ensures
        final(out)@ == old(out)@ + dec_rep(n as u64),
{
    emit_u64(out, n as u64);
}

/// The digits of a decimal number read left to right into `acc`, ending at
/// the first non-digit; too large a number fails.
pub open spec fn spec_parse_u64_loop(s: Seq<u8>, i: int, acc: u64) -> Option<(u64, int)>
    decreases s.len() - i,
{
    if 0 <= i < s.len() && is_digit(s[i]) {
        let d = (s[i] - 48) as u64;
        if acc > (u64::MAX - d) / 10 {
            None
        } else {
            spec_parse_u64_loop(s, i + 1, (acc * 10 + d) as u64)
        }
    } else {
        Some((acc, i))
    }
}

/// A decimal number at position `i`: at least one digit, ending at the
/// first non-digit.
pub open spec fn spec_parse_u64(s: Seq<u8>, i: int) -> Option<(u64, int)> {
    if 0 <= i < s.len() && is_digit(s[i]) {
        spec_parse_u64_loop(s, i, 0)
    } else {
        None
    }
}

proof fn lemma_acc_no_overflow(acc: u64, d: u64)
    by (nonlinear_arith)
    requires
        d <= 9,
        acc <= (u64::MAX - d) / 10,
    ensures
        acc * 10 + d <= u64::MAX,
{
}

/// Reads a decimal `u64` at position `i`.
#[verifier::loop_isolation(false)]
fn parse_u64(s: &Vec<u8>, i: usize) -> (r: Option<(u64, usize)>)
    requires
        i <= s@.len(),
    ensures
        r matches Some(v) ==> spec_parse_u64(s@, i as int) == Some((v.0, v.1 as int)) && i < v.1
            <= s@.len(),
        r is None ==> spec_parse_u64(s@, i as int) is None,
{
    if i == s.len() || s[i] < 48 || s[i] > 57 {
        return None;
    }
    let mut j: usize = i;
    let mut acc: u64 = 0;
    while j < s.len() && 48 <= s[j] && s[j] <= 57
        invariant
            i <= j <= s@.len(),
            spec_parse_u64_loop(s@, i as int, 0) == spec_parse_u64_loop(s@, j as int, acc),
        decreases s@.len() - j,
    {
        let d = s[j] - 48;
        if acc > (u64::MAX - d as u64) / 10 {
            return None;
        }
        proof {
            lemma_acc_no_overflow(acc, d as u64);
        }
        acc = acc * 10 + d as u64;
        j += 1;
    }
    Some((acc, j))
}

/// A decimal number that must fit in `usize`.
pub open spec fn spec_parse_usize(s: Seq<u8>, i: int) -> Option<(usize, int)> {
    match spec_parse_u64(s, i) {
        Some(v) => if v.0 <= usize::MAX {
            Some((v.0 as usize, v.1))
        } else {
            None
        },
        None => None,
    }
}

/// Reads a decimal `usize` at position `i`.
fn parse_usize(s: &Vec<u8>, i: usize) -> (r: Option<(usize, usize)>)
    requires
        i <= s@.len(),
    ensures
        r matches Some(v) ==> spec_parse_usize(s@, i as int) == Some((v.0, v.1 as int)) && i < v.1
            <= s@.len(),
        r is None ==> spec_parse_usize(s@, i as int) is None,
{
    match parse_u64(s, i) {
        None => None,
        Some((v, j)) => {
            if v <= usize::MAX as u64 {
                Some((v as usize, j))
            } else {
                None
            }
        },
    }
}

/// A byte as it stands inside a quoted string: quote and backslash carry a
/// backslash escape, every other byte stands as itself.
pub open spec fn esc_byte(b: u8) -> Seq<u8> {
    if b == 34 || b == 92 {
        seq![92u8, b]
    } else {
        seq![b]
    }
}

/// A byte sequence in its escaped form.
pub open spec fn esc_bytes(s: Seq<u8>) -> Seq<u8>
    decreases s.len(),
{
    if s.len() == 0 {
        Seq::empty()
    } else {
        esc_byte(s[0]) + esc_bytes(s.drop_first())
    }
}

/// The quoted, escaped form of a name.
pub open spec fn spec_emit_qstr(s: Seq<u8>) -> Seq<u8> {
    seq![34u8] + esc_bytes(s) + seq![34u8]
}

proof fn lemma_esc_bytes_snoc(s: Seq<u8>)
    requires
        s.len() > 0,
    ensures
        esc_bytes(s) == esc_bytes(s.drop_last()) + esc_byte(s.last()),
    decreases s.len(),
{
    assert(esc_bytes(Seq::<u8>::empty()) == Seq::<u8>::empty());
    if s.len() == 1 {
        assert(s.drop_first() =~= Seq::<u8>::empty());
        assert(s.drop_last() =~= Seq::<u8>::empty());
        assert(esc_bytes(s) =~= esc_bytes(s.drop_last()) + esc_byte(s.last()));
    } else {
        let d = s.drop_first();
        lemma_esc_bytes_snoc(d);
        assert(d.drop_last() =~= s.drop_last().drop_first());
        assert(d.last() == s.last());
        assert(s.drop_last()[0] == s[0]);
        assert(esc_bytes(s.drop_last()) == esc_byte(s[0]) + esc_bytes(s.drop_last().drop_first()));
        assert(esc_byte(s[0]) + (esc_bytes(d.drop_last()) + esc_byte(s.last())) =~= (esc_byte(s[0])
            + esc_bytes(d.drop_last())) + esc_byte(s.last()));
    }
}

/// Writes a name as a quoted, escaped string.
#[verifier::loop_isolation(false)]
fn emit_qstr(out: &mut Vec<u8>, name: &Vec<u8>)
    ensures
        final(out)@ == old(out)@ + spec_emit_qstr(name@),
{
    out.push(34);
    let mut j: usize = 0;
    proof {
        assert(name@.subrange(0, 0) =~= Seq::<u8>::empty());
        assert(out@ =~= old(out)@ + seq![34u8] + esc_bytes(name@.subrange(0, 0)));
    }
    while j < name.len()
        invariant
            j <= name@.len(),
            out@ == old(out)@ + seq![34u8] + esc_bytes(name@.subrange(0, j as int)),
        decreases name@.len() - j,
    {
        let b = name[j];
        if b == 34 || b == 92 {
            out.push(92);
        }
        out.push(b);
        proof {
            let p = name@.subrange(0, (j + 1) as int);
            assert(p.drop_last() =~= name@.subrange(0, j as int));
            assert(p.last() == name@[j as int]);
            lemma_esc_bytes_snoc(p);
            assert(out@ =~= old(out)@ + seq![34u8] + esc_bytes(p));
        }
        j += 1;
    }
    out.push(34);
    proof {
        assert(name@.subrange(0, name@.len() as int) =~= name@);
        assert(out@ =~= old(out)@ + spec_emit_qstr(name@));
    }
}

/// The bytes of a quoted string read into `acc`, unescaping as they come,
/// up to and over the closing quote.
pub open spec fn spec_parse_qchars(s: Seq<u8>, i: int, acc: Seq<u8>) -> Option<(Seq<u8>, int)>
    decreases s.len() - i,
{
    if i < 0 || i >= s.len() {
        None
    } else if s[i] == 34 {
        Some((acc, i + 1))
    } else if s[i] == 92 {
        if i + 1 < s.len() && (s[i + 1] == 34 || s[i + 1] == 92) {
            spec_parse_qchars(s, i + 2, acc.push(s[i + 1]))
        } else {
            None
        }
    } else {
        spec_parse_qchars(s, i + 1, acc.push(s[i]))
    }
}

/// A quoted, escaped string at position `i`.
pub open spec fn spec_parse_qstr(s: Seq<u8>, i: int) -> Option<(Seq<u8>, int)> {
    if 0 <= i < s.len() && s[i] == 34 {
        spec_parse_qchars(s, i + 1, Seq::empty())
    } else {
        None
    }
}

/// Reads a quoted, escaped string at position `i`.
#[verifier::loop_isolation(false)]
fn parse_qstr(s: &Vec<u8>, i: usize) -> (r: Option<(Vec<u8>, usize)>)
    requires
        i <= s@.len(),
    ensures
        r matches Some(v) ==> spec_parse_qstr(s@, i as int) == Some((v.0@, v.1 as int)) && i < v.1
            <= s@.len(),
        r is None ==> spec_parse_qstr(s@, i as int) is None,
{
    if i == s.len() || s[i] != 34 {
        return None;
    }
    let mut j: usize = i + 1;
    let mut acc: Vec<u8> = Vec::new();
    proof {
        assert(acc@ =~= Seq::<u8>::empty());
    }
    loop
        invariant
            i + 1 <= j <= s@.len(),
            spec_parse_qstr(s@, i as int) == spec_parse_qchars(s@, j as int, acc@),
        decreases s@.len() - j,
    {
        if j == s.len() {
            return None;
        }
        let b = s[j];
        if b == 34 {
            return Some((acc, j + 1));
        }
        if b == 92 {
            if j + 1 == s.len() {
                return None;
            }
            let c = s[j + 1];
            if c == 34 || c == 92 {
                acc.push(c);
                j += 2;
            } else {
                return None;
            }
        } else {
            acc.push(b);
            j += 1;
        }
    }
}

/// The encoded form of a span: `null`, a bounded range, or an open start.
pub open spec fn spec_emit_span(sp: Option<Span>) -> Seq<u8> {
    match sp {
        None => lit_null(),
        Some(Span::Bounded { start, end }) => lit_range_pre() + dec_rep(start as u64) + lit_comma()
            + dec_rep(end as u64) + lit_rb_cb(),
        Some(Span::Open { start }) => lit_from_pre() + dec_rep(start as u64) + lit_cb(),
    }
}

/// Writes a span.
fn emit_span(out: &mut Vec<u8>, sp: &Option<Span>)
    ensures
        final(out)@ == old(out)@ + spec_emit_span(*sp),
{
    match sp {
        None => {
            let l = mk_null();
            push_bytes(out, &l);
        },
        Some(Span::Bounded { start, end }) => {
            let l1 = mk_range_pre();
            push_bytes(out, &l1);
            emit_usize(out, *start);
            let l2 = mk_comma();
            push_bytes(out, &l2);
            emit_usize(out, *end);
            let l3 = mk_rb_cb();
            push_bytes(out, &l3);
            proof {
                assert(out@ =~= old(out)@ + spec_emit_span(*sp));
            }
        },
        Some(Span::Open { start }) => {
            let l1 = mk_from_pre();
            push_bytes(out, &l1);
            emit_usize(out, *start);
            let l2 = mk_cb();
            push_bytes(out, &l2);
            proof {
                assert(out@ =~= old(out)@ + spec_emit_span(*sp));
            }
        },
    }
}

/// The encoded form of a section's classification.
pub open spec fn spec_emit_kind(k: KindModel) -> Seq<u8> {
    match k {
        KindModel::Condition => lit_cond(),
        KindModel::Tilt => lit_tilt(),
        KindModel::Merit { subkind: None } => lit_merit_none(),
        KindModel::Merit { subkind: Some(sub) } => lit_merit_pre() + spec_emit_qstr(sub)
            + lit_cb(),
    }
}

/// Writes a section's classification.
fn emit_kind(out: &mut Vec<u8>, k: &SectionKind)
    ensures
        final(out)@ == old(out)@ + spec_emit_kind(k.deep_view()),
{
    match k {
        SectionKind::Condition => {
            let l = mk_cond();
            push_bytes(out, &l);
        },
        SectionKind::Tilt => {
            let l = mk_tilt();
            push_bytes(out, &l);
        },
        SectionKind::Merit { subkind: None } => {
            let l = mk_merit_none();
            push_bytes(out, &l);
        },
        SectionKind::Merit { subkind: Some(sub) } => {
            let l1 = mk_merit_pre();
            push_bytes(out, &l1);
            emit_qstr(out, sub);
            let l2 = mk_cb();
            push_bytes(out, &l2);
            proof {
                assert(out@ =~= old(out)@ + spec_emit_kind(k.deep_view()));
            }
        },
    }
}

/// The encoded form of one edit operation.
pub open spec fn spec_emit_op(op: Op) -> Seq<u8> {
    match op {
        Op::Delete { start, end } => lit_op_pre() + dec_rep(start as u64) + lit_comma() + dec_rep(
            end as u64,
        ) + lit_op_post(),
    }
}

/// Writes one edit operation.
fn emit_op(out: &mut Vec<u8>, op: &Op)
    ensures
        final(out)@ == old(out)@ + spec_emit_op(*op),
{
    match op {
        Op::Delete { start, end } => {
            let l1 = mk_op_pre();
            push_bytes(out, &l1);
            emit_usize(out, *start);
            let l2 = mk_comma();
            push_bytes(out, &l2);
            emit_usize(out, *end);
            let l3 = mk_op_post();
            push_bytes(out, &l3);
            proof {
                assert(out@ =~= old(out)@ + spec_emit_op(*op));
            }
        },
    }
}

/// The encoded operations after the first, each preceded by a separator.
pub open spec fn spec_emit_ops_tail(ops: Seq<Op>) -> Seq<u8>
    decreases ops.len(),
{
    if ops.len() == 0 {
        Seq::empty()
    } else {
        lit_sep() + spec_emit_op(ops[0]) + spec_emit_ops_tail(ops.drop_first())
    }
}

proof fn lemma_emit_ops_tail_snoc(ops: Seq<Op>)
    requires
        ops.len() > 0,
    ensures
        spec_emit_ops_tail(ops) == spec_emit_ops_tail(ops.drop_last()) + lit_sep() + spec_emit_op(
            ops.last(),
        ),
    decreases ops.len(),
{
    assert(spec_emit_ops_tail(Seq::<Op>::empty()) == Seq::<u8>::empty());
    if ops.len() == 1 {
        assert(ops.drop_first() =~= Seq::<Op>::empty());
        assert(ops.drop_last() =~= Seq::<Op>::empty());
        assert(spec_emit_ops_tail(ops) =~= spec_emit_ops_tail(ops.drop_last()) + lit_sep()
            + spec_emit_op(ops.last()));
    } else {
        let d = ops.drop_first();
        lemma_emit_ops_tail_snoc(d);
        assert(d.drop_last() =~= ops.drop_last().drop_first());
        assert(d.last() == ops.last());
        assert(ops.drop_last()[0] == ops[0]);
        assert(spec_emit_ops_tail(ops.drop_last()) == lit_sep() + spec_emit_op(ops[0])
            + spec_emit_ops_tail(ops.drop_last().drop_first()));
        assert(lit_sep() + spec_emit_op(ops[0]) + ((spec_emit_ops_tail(d.drop_last()) + lit_sep())
            + spec_emit_op(ops.last())) =~= ((lit_sep() + spec_emit_op(ops[0]) + spec_emit_ops_tail(
            d.drop_last(),
        )) + lit_sep()) + spec_emit_op(ops.last()));
    }
}

/// The encoded operation log, from just after the opening bracket to the
/// closing bracket inclusive.
pub open spec fn spec_emit_ops(ops: Seq<Op>) -> Seq<u8> {
    if ops.len() == 0 {
        lit_ops_none()
    } else {
        lit_nl() + spec_emit_op(ops[0]) + spec_emit_ops_tail(ops.drop_first()) + lit_ops_end()
    }
}

/// Writes the operation log.
#[verifier::loop_isolation(false)]
fn emit_ops(out: &mut Vec<u8>, ops: &Vec<Op>)
    ensures
        final(out)@ == old(out)@ + spec_emit_ops(ops@),
{
    if ops.len() == 0 {
        let l = mk_ops_none();
        push_bytes(out, &l);
        return;
    }
    let l1 = mk_nl();
    push_bytes(out, &l1);
    emit_op(out, &ops[0]);
    let mut j: usize = 1;
    proof {
        assert(ops@.subrange(1, 1) =~= Seq::<Op>::empty());
        assert(out@ =~= old(out)@ + lit_nl() + spec_emit_op(ops@[0]) + spec_emit_ops_tail(
            ops@.subrange(1, 1),
        ));
    }
    while j < ops.len()
        invariant
            1 <= j <= ops@.len(),
            out@ == old(out)@ + lit_nl() + spec_emit_op(ops@[0]) + spec_emit_ops_tail(
                ops@.subrange(1, j as int),
            ),
        decreases ops@.len() - j,
    {
        let l2 = mk_sep();
        push_bytes(out, &l2);
        emit_op(out, &ops[j]);
        proof {
            let p = ops@.subrange(1, (j + 1) as int);
            assert(p.drop_last() =~= ops@.subrange(1, j as int));
            assert(p.last() == ops@[j as int]);
            lemma_emit_ops_tail_snoc(p);
            assert(out@ =~= old(out)@ + lit_nl() + spec_emit_op(ops@[0]) + spec_emit_ops_tail(p));
        }
        j += 1;
    }
    let l3 = mk_ops_end();
    push_bytes(out, &l3);
    proof {
        assert(ops@.subrange(1, ops@.len() as int) =~= ops@.drop_first());
        assert(out@ =~= old(out)@ + spec_emit_ops(ops@));
    }
}

/// The encoded form of one section definition.
pub open spec fn spec_emit_section(sec: SectionModel) -> Seq<u8> {
    lit_sec_pre() + spec_emit_qstr(sec.name) + lit_pages() + dec_rep(sec.pages.start as u64)
        + lit_comma() + dec_rep(sec.pages.end as u64) + lit_span() + spec_emit_span(sec.span)
        + lit_kind() + spec_emit_kind(sec.kind) + lit_ops() + spec_emit_ops(sec.ops)
        + lit_sec_end()
}

/// Writes one section definition.
fn emit_section(out: &mut Vec<u8>, sec: &SectionDefinition)
    ensures
        final(out)@ == old(out)@ + spec_emit_section(sec.deep_view()),
{
    let l1 = mk_sec_pre();
    push_bytes(out, &l1);
    emit_qstr(out, &sec.name);
    let l2 = mk_pages();
    push_bytes(out, &l2);
    emit_usize(out, sec.pages.start);
    let l3 = mk_comma();
    push_bytes(out, &l3);
    emit_usize(out, sec.pages.end);
    let l4 = mk_span();
    push_bytes(out, &l4);
    emit_span(out, &sec.span);
    let l5 = mk_kind();
    push_bytes(out, &l5);
    emit_kind(out, &sec.kind);
    let l6 = mk_ops();
    push_bytes(out, &l6);
    emit_ops(out, &sec.ops);
    let l7 = mk_sec_end();
    push_bytes(out, &l7);
    proof {
        assert(out@ =~= old(out)@ + spec_emit_section(sec.deep_view()));
    }
}

/// The encoded sections after the first, each preceded by a separator.
pub open spec fn spec_emit_secs_tail(ss: Seq<SectionModel>) -> Seq<u8>
    decreases ss.len(),
{
    if ss.len() == 0 {
        Seq::empty()
    } else {
        lit_sep() + spec_emit_section(ss[0]) + spec_emit_secs_tail(ss.drop_first())
    }
}

#[verifier::rlimit(80)]
proof fn lemma_emit_secs_tail_snoc(ss: Seq<SectionModel>)
    requires
        ss.len() > 0,
    ensures
        spec_emit_secs_tail(ss) == spec_emit_secs_tail(ss.drop_last()) + lit_sep()
            + spec_emit_section(ss.last()),
    decreases ss.len(),
{
    assert(spec_emit_secs_tail(Seq::<SectionModel>::empty()) == Seq::<u8>::empty());
    if ss.len() == 1 {
        assert(ss.drop_first() =~= Seq::<SectionModel>::empty());
        assert(ss.drop_last() =~= Seq::<SectionModel>::empty());
        assert(spec_emit_secs_tail(ss) =~= spec_emit_secs_tail(ss.drop_last()) + lit_sep()
            + spec_emit_section(ss.last()));
    } else {
        let d = ss.drop_first();
        lemma_emit_secs_tail_snoc(d);
        assert(d.drop_last() =~= ss.drop_last().drop_first());
        assert(d.last() == ss.last());
        assert(ss.drop_last()[0] == ss[0]);
        assert(spec_emit_secs_tail(ss.drop_last()) == lit_sep() + spec_emit_section(ss[0])
            + spec_emit_secs_tail(ss.drop_last().drop_first()));
        assert(lit_sep() + spec_emit_section(ss[0]) + ((spec_emit_secs_tail(d.drop_last())
            + lit_sep()) + spec_emit_section(ss.last())) =~= ((lit_sep() + spec_emit_section(ss[0])
            + spec_emit_secs_tail(d.drop_last())) + lit_sep()) + spec_emit_section(ss.last()));
    }
}

/// The full encoded record: the sidecar file's canonical bytes.
pub open spec fn spec_encode_meta(m: MetaModel) -> Seq<u8> {
    lit_head() + dec_rep(m.hash) + lit_ts() + dec_rep(m.timestamp) + lit_secs() + (if m.sections.len()
        == 0 {
        lit_secs_none()
    } else {
        lit_nl() + spec_emit_section(m.sections[0]) + spec_emit_secs_tail(m.sections.drop_first())
            + lit_secs_end()
    })
}

/// Serializes a record to the canonical sidecar form: every byte of the
/// output is pinned by `spec_encode_meta`.
#[verifier::loop_isolation(false)]
#[verifier::rlimit(80)]
pub fn encode_meta(m: &SourceMeta) -> (r: Vec<u8>)
    ensures
        r@ == spec_encode_meta(m.deep_view()),
{
    let mut out: Vec<u8> = Vec::new();
    let l1 = mk_head();
    push_bytes(&mut out, &l1);
    emit_u64(&mut out, m.hash);
    let l2 = mk_ts();
    push_bytes(&mut out, &l2);
    emit_u64(&mut out, m.timestamp);
    let l3 = mk_secs();
    push_bytes(&mut out, &l3);
    let ghost ss = m.deep_view().sections;
    proof {
        assert(ss.len() == m.sections@.len());
    }
    if m.sections.len() == 0 {
        let l4 = mk_secs_none();
        push_bytes(&mut out, &l4);
        proof {
            assert(out@ =~= spec_encode_meta(m.deep_view()));
        }
        return out;
    }
    emit_nl_first_section(&mut out, m);
    let mut j: usize = 1;
    proof {
        assert(ss.subrange(1, 1) =~= Seq::<SectionModel>::empty());
    }
    while j < m.sections.len()
        invariant
            1 <= j <= ss.len(),
            out@ == lit_head() + dec_rep(m.hash) + lit_ts() + dec_rep(m.timestamp) + lit_secs()
                + lit_nl() + spec_emit_section(ss[0]) + spec_emit_secs_tail(ss.subrange(1,
                j as int)),
        decreases ss.len() - j,
    {
        let l5 = mk_sep();
        push_bytes(&mut out, &l5);
        emit_section(&mut out, &m.sections[j]);
        proof {
            let p = ss.subrange(1, (j + 1) as int);
            assert(p.drop_last() =~= ss.subrange(1, j as int));
            assert(p.last() == ss[j as int]);
            assert(ss[j as int] == m.sections@[j as int].deep_view());
            lemma_emit_secs_tail_snoc(p);
            assert(out@ =~= lit_head() + dec_rep(m.hash) + lit_ts() + dec_rep(m.timestamp)
                + lit_secs() + lit_nl() + spec_emit_section(ss[0]) + spec_emit_secs_tail(p));
        }
        j += 1;
    }
    let l6 = mk_secs_end();
    push_bytes(&mut out, &l6);
    proof {
        assert(ss.subrange(1, ss.len() as int) =~= ss.drop_first());
        assert(out@ =~= spec_encode_meta(m.deep_view()));
    }
    out
}

/// Writes the newline and the first section of a non-empty section list.
fn emit_nl_first_section(out: &mut Vec<u8>, m: &SourceMeta)
    requires
        m.sections@.len() > 0,
    ensures
        final(out)@ == old(out)@ + lit_nl() + spec_emit_section(m.deep_view().sections[0]),
{
    let l = mk_nl();
    push_bytes(out, &l);
    emit_section(out, &m.sections[0]);
    proof {
        assert(m.deep_view().sections[0] == m.sections@[0].deep_view());
        assert(out@ =~= old(out)@ + lit_nl() + spec_emit_section(m.deep_view().sections[0]));
    }
}

/// A span at position `i`: `null`, a bounded range, or an open start.
pub open spec fn spec_parse_span(s: Seq<u8>, i: int) -> Option<(Option<Span>, int)> {
    match spec_expect(s, i, lit_null()) {
        Some(j) => Some((None, j)),
        None => match spec_expect(s, i, lit_range_pre()) {
            Some(j1) => match spec_parse_usize(s, j1) {
                Some(v1) => match spec_expect(s, v1.1, lit_comma()) {
                    Some(j2) => match spec_parse_usize(s, j2) {
                        Some(v2) => match spec_expect(s, v2.1, lit_rb_cb()) {
                            Some(j3) => Some(
                                (Some(Span::Bounded { start: v1.0, end: v2.0 }), j3),
                            ),
                            None => None,
                        },
                        None => None,
                    },
                    None => None,
                },
                None => None,
            },
            None => match spec_expect(s, i, lit_from_pre()) {
                Some(j1) => match spec_parse_usize(s, j1) {
                    Some(v) => match spec_expect(s, v.1, lit_cb()) {
                        Some(j2) => Some((Some(Span::Open { start: v.0 }), j2)),
                        None => None,
                    },
                    None => None,
                },
                None => None,
            },
        },
    }
}

/// Reads a span at position `i`.
fn parse_span(s: &Vec<u8>, i: usize) -> (r: Option<(Option<Span>, usize)>)
    ensures
        r matches Some(v) ==> spec_parse_span(s@, i as int) == Some((v.0, v.1 as int)) && i < v.1
            <= s@.len(),
        r is None ==> spec_parse_span(s@, i as int) is None,
{
    let l_null = mk_null();
    match expect_bytes(s, i, &l_null) {
        Some(j) => {
            return Some((None, j));
        },
        None => {},
    }
    let l_range = mk_range_pre();
    match expect_bytes(s, i, &l_range) {
        Some(j1) => {
            let (a, j2) = match parse_usize(s, j1) {
                None => return None,
                Some(v) => v,
            };
            let l_comma = mk_comma();
            let j3 = match expect_bytes(s, j2, &l_comma) {
                None => return None,
                Some(j) => j,
            };
            let (b, j4) = match parse_usize(s, j3) {
                None => return None,
                Some(v) => v,
            };
            let l_rb = mk_rb_cb();
            match expect_bytes(s, j4, &l_rb) {
                None => None,
                Some(j5) => Some((Some(Span::Bounded { start: a, end: b }), j5)),
            }
        },
        None => {
            let l_from = mk_from_pre();
            let j1 = match expect_bytes(s, i, &l_from) {
                None => return None,
                Some(j) => j,
            };
            let (a, j2) = match parse_usize(s, j1) {
                None => return None,
                Some(v) => v,
            };
            let l_cb = mk_cb();
            match expect_bytes(s, j2, &l_cb) {
                None => None,
                Some(j3) => Some((Some(Span::Open { start: a }), j3)),
            }
        },
    }
}

/// A section classification at position `i`.
pub open spec fn spec_parse_kind(s: Seq<u8>, i: int) -> Option<(KindModel, int)> {
    match spec_expect(s, i, lit_cond()) {
        Some(j) => Some((KindModel::Condition, j)),
        None => match spec_expect(s, i, lit_tilt()) {
            Some(j) => Some((KindModel::Tilt, j)),
            None => match spec_expect(s, i, lit_merit_none()) {
                Some(j) => Some((KindModel::Merit { subkind: None }, j)),
                None => match spec_expect(s, i, lit_merit_pre()) {
                    Some(j1) => match spec_parse_qstr(s, j1) {
                        Some(v) => match spec_expect(s, v.1, lit_cb()) {
                            Some(j2) => Some(
                                (KindModel::Merit { subkind: Some(v.0) }, j2),
                            ),
                            None => None,
                        },
                        None => None,
                    },
                    None => None,
                },
            },
        },
    }
}

/// Reads a section classification at position `i`.
fn parse_kind(s: &Vec<u8>, i: usize) -> (r: Option<(SectionKind, usize)>)
    ensures
        r matches Some(v) ==> spec_parse_kind(s@, i as int) == Some((v.0.deep_view(), v.1 as int))
            && i < v.1 <= s@.len(),
        r is None ==> spec_parse_kind(s@, i as int) is None,
{
    let l_cond = mk_cond();
    match expect_bytes(s, i, &l_cond) {
        Some(j) => {
            return Some((SectionKind::Condition, j));
        },
        None => {},
    }
    let l_tilt = mk_tilt();
    match expect_bytes(s, i, &l_tilt) {
        Some(j) => {
            return Some((SectionKind::Tilt, j));
        },
        None => {},
    }
    let l_mn = mk_merit_none();
    match expect_bytes(s, i, &l_mn) {
        Some(j) => {
            return Some((SectionKind::Merit { subkind: None }, j));
        },
        None => {},
    }
    let l_mp = mk_merit_pre();
    let j1 = match expect_bytes(s, i, &l_mp) {
        None => return None,
        Some(j) => j,
    };
    let (sub, j2) = match parse_qstr(s, j1) {
        None => return None,
        Some(v) => v,
    };
    let l_cb = mk_cb();
    match expect_bytes(s, j2, &l_cb) {
        None => None,
        Some(j3) => Some((SectionKind::Merit { subkind: Some(sub) }, j3)),
    }
}

/// One edit operation at position `i`.
pub open spec fn spec_parse_op(s: Seq<u8>, i: int) -> Option<(Op, int)> {
    match spec_expect(s, i, lit_op_pre()) {
        Some(j1) => match spec_parse_usize(s, j1) {
            Some(v1) => match spec_expect(s, v1.1, lit_comma()) {
                Some(j2) => match spec_parse_usize(s, j2) {
                    Some(v2) => match spec_expect(s, v2.1, lit_op_post()) {
                        Some(j3) => Some((Op::Delete { start: v1.0, end: v2.0 }, j3)),
                        None => None,
                    },
                    None => None,
                },
                None => None,
            },
            None => None,
        },
        None => None,
    }
}

/// Reads one edit operation at position `i`.
fn parse_op(s: &Vec<u8>, i: usize) -> (r: Option<(Op, usize)>)
    ensures
        r matches Some(v) ==> spec_parse_op(s@, i as int) == Some((v.0, v.1 as int)) && i < v.1
            <= s@.len(),
        r is None ==> spec_parse_op(s@, i as int) is None,
{
    let l_pre = mk_op_pre();
    let j1 = match expect_bytes(s, i, &l_pre) {
        None => return None,
        Some(j) => j,
    };
    let (a, j2) = match parse_usize(s, j1) {
        None => return None,
        Some(v) => v,
    };
    let l_comma = mk_comma();
    let j3 = match expect_bytes(s, j2, &l_comma) {
        None => return None,
        Some(j) => j,
    };
    let (b, j4) = match parse_usize(s, j3) {
        None => return None,
        Some(v) => v,
    };
    let l_post = mk_op_post();
    match expect_bytes(s, j4, &l_post) {
        None => None,
        Some(j5) => Some((Op::Delete { start: a, end: b }, j5)),
    }
}

/// The operations after the first: either a separator and another
/// operation, or the list's closing bracket.
pub open spec fn spec_parse_ops_rest(s: Seq<u8>, i: int, acc: Seq<Op>) -> Option<(Seq<Op>, int)>
    decreases s.len() - i,
{
    match spec_expect(s, i, lit_sep()) {
        Some(j) => match spec_parse_op(s, j) {
            Some(v) => if v.1 <= i || s.len() < v.1 {
                None
            } else {
                spec_parse_ops_rest(s, v.1, acc.push(v.0))
            },
            None => None,
        },
        None => match spec_expect(s, i, lit_ops_end()) {
            Some(j) => Some((acc, j)),
            None => None,
        },
    }
}

/// An operation log at position `i`, from just after the opening bracket:
/// an immediate closing bracket, or newline-led entries.
pub open spec fn spec_parse_ops(s: Seq<u8>, i: int) -> Option<(Seq<Op>, int)> {
    match spec_expect(s, i, lit_ops_none()) {
        Some(j) => Some((Seq::empty(), j)),
        None => match spec_expect(s, i, lit_nl()) {
            Some(j1) => match spec_parse_op(s, j1) {
                Some(v) => spec_parse_ops_rest(s, v.1, seq![v.0]),
                None => None,
            },
            None => None,
        },
    }
}

/// Reads an operation log at position `i`.
#[verifier::loop_isolation(false)]
fn parse_ops(s: &Vec<u8>, i: usize) -> (r: Option<(Vec<Op>, usize)>)
    ensures
        r matches Some(v) ==> spec_parse_ops(s@, i as int) == Some((v.0@, v.1 as int)) && i < v.1
            <= s@.len(),
        r is None ==> spec_parse_ops(s@, i as int) is None,
{
    let l_none = mk_ops_none();
    match expect_bytes(s, i, &l_none) {
        Some(j) => {
            let empty: Vec<Op> = Vec::new();
            proof {
                assert(empty@ =~= Seq::<Op>::empty());
            }
            return Some((empty, j));
        },
        None => {},
    }
    let l_nl = mk_nl();
    let j1 = match expect_bytes(s, i, &l_nl) {
        None => return None,
        Some(j) => j,
    };
    let (op0, first_pos) = match parse_op(s, j1) {
        None => return None,
        Some(v) => v,
    };
    let mut acc: Vec<Op> = Vec::new();
    acc.push(op0);
    let mut pos: usize = first_pos;
    proof {
        assert(acc@ =~= seq![op0]);
    }
    loop
        invariant
            i < pos <= s@.len(),
            spec_parse_ops(s@, i as int) == spec_parse_ops_rest(s@, pos as int, acc@),
        decreases s@.len() - pos,
    {
        let l_sep = mk_sep();
        match expect_bytes(s, pos, &l_sep) {
            Some(j) => {
                match parse_op(s, j) {
                    None => return None,
                    Some((op, k)) => {
                        proof {
                            assert(acc@.push(op) =~= acc@ + seq![op]);
                        }
                        acc.push(op);
                        pos = k;
                    },
                }
            },
            None => {
                let l_end = mk_ops_end();
                match expect_bytes(s, pos, &l_end) {
                    Some(j) => {
                        return Some((acc, j));
                    },
                    None => return None,
                }
            },
        }
    }
}

/// One section definition at position `i`.
pub open spec fn spec_parse_section(s: Seq<u8>, i: int) -> Option<(SectionModel, int)> {
    match spec_expect(s, i, lit_sec_pre()) {
        Some(j1) => match spec_parse_qstr(s, j1) {
            Some(nv) => match spec_expect(s, nv.1, lit_pages()) {
                Some(j2) => match spec_parse_usize(s, j2) {
                    Some(p1) => match spec_expect(s, p1.1, lit_comma()) {
                        Some(j3) => match spec_parse_usize(s, j3) {
                            Some(p2) => match spec_expect(s, p2.1, lit_span()) {
                                Some(j4) => match spec_parse_span(s, j4) {
                                    Some(sv) => match spec_expect(s, sv.1, lit_kind()) {
                                        Some(j5) => match spec_parse_kind(s, j5) {
                                            Some(kv) => match spec_expect(s, kv.1, lit_ops()) {
                                                Some(j6) => match spec_parse_ops(s, j6) {
                                                    Some(ov) => match spec_expect(s, ov.1,
                                                        lit_sec_end()) {
                                                        Some(j7) => Some(
                                                            (SectionModel {
                                                                name: nv.0,
                                                                pages: PageRange {
                                                                    start: p1.0,
                                                                    end: p2.0,
                                                                },
                                                                span: sv.0,
                                                                kind: kv.0,
                                                                ops: ov.0,
                                                            }, j7),
                                                        ),
                                                        None => None,
                                                    },
                                                    None => None,
                                                },
                                                None => None,
                                            },
                                            None => None,
                                        },
                                        None => None,
                                    },
                                    None => None,
                                },
                                None => None,
                            },
                            None => None,
                        },
                        None => None,
                    },
                    None => None,
                },
                None => None,
            },
            None => None,
        },
        None => None,
    }
}

/// Reads one section definition at position `i`.
fn parse_section(s: &Vec<u8>, i: usize) -> (r: Option<(SectionDefinition, usize)>)
    ensures
        r matches Some(v) ==> spec_parse_section(s@, i as int) == Some(
            (v.0.deep_view(), v.1 as int),
        ) && i < v.1 <= s@.len(),
        r is None ==> spec_parse_section(s@, i as int) is None,
{
    let l1 = mk_sec_pre();
    let j1 = match expect_bytes(s, i, &l1) {
        None => return None,
        Some(j) => j,
    };
    let (name, j2) = match parse_qstr(s, j1) {
        None => return None,
        Some(v) => v,
    };
    let l2 = mk_pages();
    let j3 = match expect_bytes(s, j2, &l2) {
        None => return None,
        Some(j) => j,
    };
    let (p1, j4) = match parse_usize(s, j3) {
        None => return None,
        Some(v) => v,
    };
    let l3 = mk_comma();
    let j5 = match expect_bytes(s, j4, &l3) {
        None => return None,
        Some(j) => j,
    };
    let (p2, j6) = match parse_usize(s, j5) {
        None => return None,
        Some(v) => v,
    };
    let l4 = mk_span();
    let j7 = match expect_bytes(s, j6, &l4) {
        None => return None,
        Some(j) => j,
    };
    let (sp, j8) = match parse_span(s, j7) {
        None => return None,
        Some(v) => v,
    };
    let l5 = mk_kind();
    let j9 = match expect_bytes(s, j8, &l5) {
        None => return None,
        Some(j) => j,
    };
    let (kind, j10) = match parse_kind(s, j9) {
        None => return None,
        Some(v) => v,
    };
    let l6 = mk_ops();
    let j11 = match expect_bytes(s, j10, &l6) {
        None => return None,
        Some(j) => j,
    };
    let (ops, j12) = match parse_ops(s, j11) {
        None => return None,
        Some(v) => v,
    };
    let l7 = mk_sec_end();
    match expect_bytes(s, j12, &l7) {
        None => None,
        Some(j13) => {
            let sec = SectionDefinition {
                name,
                pages: PageRange { start: p1, end: p2 },
                span: sp,
                kind,
                ops,
            };
            proof {
                assert(sec.deep_view() == SectionModel {
                    name: sec.name@,
                    pages: sec.pages,
                    span: sec.span,
                    kind: sec.kind.deep_view(),
                    ops: sec.ops@,
                });
                assert(spec_parse_section(s@, i as int) == Some((sec.deep_view(), j13 as int)));
            }
            Some((sec, j13))
        },
    }
}

/// The sections after the first: either a separator and another section,
/// or the list's closing bracket and the record's closing brace.
pub open spec fn spec_parse_secs_rest(s: Seq<u8>, i: int, acc: Seq<SectionModel>) -> Option<
    (Seq<SectionModel>, int),
>
    decreases s.len() - i,
{
    match spec_expect(s, i, lit_sep()) {
        Some(j) => match spec_parse_section(s, j) {
            Some(v) => if v.1 <= i || s.len() < v.1 {
                None
            } else {
                spec_parse_secs_rest(s, v.1, acc.push(v.0))
            },
            None => None,
        },
        None => match spec_expect(s, i, lit_secs_end()) {
            Some(j) => Some((acc, j)),
            None => None,
        },
    }
}

/// A whole record: the strict mirror of `spec_encode_meta`, accepting the
/// canonical sidecar form and nothing else, and demanding that the input
/// end with the record.
pub open spec fn spec_decode_meta(s: Seq<u8>) -> Option<MetaModel> {
    match spec_expect(s, 0, lit_head()) {
        Some(j1) => match spec_parse_u64(s, j1) {
            Some(hv) => match spec_expect(s, hv.1, lit_ts()) {
                Some(j2) => match spec_parse_u64(s, j2) {
                    Some(tv) => match spec_expect(s, tv.1, lit_secs()) {
                        Some(j3) => match spec_expect(s, j3, lit_secs_none()) {
                            Some(j4) => if j4 == s.len() {
                                Some(MetaModel { hash: hv.0, timestamp: tv.0, sections: Seq::empty() })
                            } else {
                                None
                            },
                            None => match spec_expect(s, j3, lit_nl()) {
                                Some(j5) => match spec_parse_section(s, j5) {
                                    Some(sv) => match spec_parse_secs_rest(s, sv.1, seq![sv.0]) {
                                        Some(rv) => if rv.1 == s.len() {
                                            Some(MetaModel {
                                                hash: hv.0,
                                                timestamp: tv.0,
                                                sections: rv.0,
                                            })
                                        } else {
                                            None
                                        },
                                        None => None,
                                    },
                                    None => None,
                                },
                                None => None,
                            },
                        },
                        None => None,
                    },
                    None => None,
                },
                None => None,
            },
            None => None,
        },
        None => None,
    }
}

/// Parses a sidecar file's bytes back into a record. Exactly the canonical
/// encodings are accepted: the result is pinned to `spec_decode_meta`, and
/// a file that is not a canonical record is rejected as corrupt.
#[verifier::loop_isolation(false)]
pub fn decode_meta(s: &Vec<u8>) -> (r: Option<SourceMeta>)
    ensures
        r matches Some(m) ==> spec_decode_meta(s@) == Some(m.deep_view()),
        r is None ==> spec_decode_meta(s@) is None,
{
    let l1 = mk_head();
    let j1 = match expect_bytes(s, 0, &l1) {
        None => return None,
        Some(j) => j,
    };
    let (hash, j2) = match parse_u64(s, j1) {
        None => return None,
        Some(v) => v,
    };
    let l2 = mk_ts();
    let j3 = match expect_bytes(s, j2, &l2) {
        None => return None,
        Some(j) => j,
    };
    let (timestamp, j4) = match parse_u64(s, j3) {
        None => return None,
        Some(v) => v,
    };
    let l3 = mk_secs();
    let j5 = match expect_bytes(s, j4, &l3) {
        None => return None,
        Some(j) => j,
    };
    let l4 = mk_secs_none();
    match expect_bytes(s, j5, &l4) {
        Some(j6) => {
            if j6 == s.len() {
                let m = SourceMeta { hash, timestamp, sections: Vec::new() };
                proof {
                    assert(m.deep_view().sections =~= Seq::<SectionModel>::empty());
                }
                return Some(m);
            } else {
                return None;
            }
        },
        None => {},
    }
    let l5 = mk_nl();
    let j7 = match expect_bytes(s, j5, &l5) {
        None => return None,
        Some(j) => j,
    };
    let (sec0, first_pos) = match parse_section(s, j7) {
        None => return None,
        Some(v) => v,
    };
    let mut acc: Vec<SectionDefinition> = Vec::new();
    acc.push(sec0);
    let mut pos: usize = first_pos;
    proof {
        assert(acc.deep_view() =~= seq![sec0.deep_view()]);
    }
    loop
        invariant
            pos <= s@.len(),
            spec_decode_meta(s@) == (match spec_parse_secs_rest(s@, pos as int, acc.deep_view()) {
                Some(rv) => if rv.1 == s@.len() {
                    Some(MetaModel { hash, timestamp, sections: rv.0 })
                } else {
                    None
                },
                None => None,
            }),
        decreases s@.len() - pos,
    {
        let l_sep = mk_sep();
        match expect_bytes(s, pos, &l_sep) {
            Some(j) => {
                match parse_section(s, j) {
                    None => return None,
                    Some((sec, k)) => {
                        let ghost pre = acc.deep_view();
                        acc.push(sec);
                        proof {
                            assert(acc.deep_view() =~= pre.push(sec.deep_view()));
                        }
                        pos = k;
                    },
                }
            },
            None => {
                let l_end = mk_secs_end();
                match expect_bytes(s, pos, &l_end) {
                    Some(j) => {
                        if j == s.len() {
                            let m = SourceMeta { hash, timestamp, sections: acc };
                            return Some(m);
                        } else {
                            return None;
                        }
                    },
                    None => return None,
                }
            },
        }
    }
}

/// Splitting a matched region into its two halves.
proof fn lemma_subrange_split(s: Seq<u8>, i: int, a: Seq<u8>, b: Seq<u8>)
    requires
        0 <= i,
        i + a.len() + b.len() <= s.len(),
        s.subrange(i, i + a.len() + b.len()) == a + b,
    ensures
        s.subrange(i, i + a.len()) == a,
        s.subrange(i + a.len(), i + a.len() + b.len()) == b,
{
    assert forall|k: int| 0 <= k < a.len() implies s.subrange(i, i + a.len())[k] == a[k] by {
        assert(s.subrange(i, i + a.len() + b.len())[k] == (a + b)[k]);
    }
    assert(s.subrange(i, i + a.len()) =~= a);
    assert forall|k: int| 0 <= k < b.len() implies s.subrange(i + a.len(), i + a.len()
        + b.len())[k] == b[k] by {
        assert(s.subrange(i + a.len(), i + a.len() + b.len())[k] == s[i + a.len() + k]);
        assert(s.subrange(i, i + a.len() + b.len())[a.len() + k] == s[i + a.len() + k]);
        assert((a + b)[a.len() + k] == b[k]);
    }
    assert(s.subrange(i + a.len(), i + a.len() + b.len()) =~= b);
}

/// A literal cannot match where some byte of it differs from the input.
proof fn lemma_expect_differs_at(s: Seq<u8>, i: int, l: Seq<u8>, k: int)
    requires
        0 <= k < l.len(),
        s[i + k] != l[k],
    ensures
        spec_expect(s, i, l) is None,
{
    if 0 <= i && i + l.len() <= s.len() && s.subrange(i, i + l.len()) == l {
        assert(s.subrange(i, i + l.len())[k] == s[i + k]);
        assert(false);
    }
}

/// Powers of ten.
spec fn pow10(k: nat) -> int
    decreases k,
{
    if k == 0 {
        1
    } else {
        10 * pow10((k - 1) as nat)
    }
}

proof fn lemma_mul_le_div(a: int, d: int, m: int)
    by (nonlinear_arith)
    requires
        0 <= a,
        0 <= d <= m,
        a * 10 + d <= m,
    ensures
        a <= (m - d) / 10,
{
}

proof fn lemma_mul_assoc10(a: int, p: int)
    by (nonlinear_arith)
    ensures
        a * (10 * p) == (a * p) * 10,
{
}

proof fn lemma_mul_nonneg(a: int, b: int)
    by (nonlinear_arith)
    requires
        0 <= a,
        0 <= b,
    ensures
        0 <= a * b,
{
}

proof fn lemma_pow10_pos(k: nat)
    ensures
        pow10(k) >= 1,
    decreases k,
{
    if k > 0 {
        lemma_pow10_pos((k - 1) as nat);
    }
}

/// A decimal representation has at least one byte and starts with a digit.
proof fn lemma_dec_rep_first(n: u64)
    ensures
        dec_rep(n).len() >= 1,
        is_digit(dec_rep(n)[0]),
    decreases n,
{
    if n >= 10 {
        lemma_dec_rep_first((n / 10) as u64);
    }
}

/// The digit loop over a decimal representation folds the whole number
/// into the accumulator.
proof fn lemma_parse_digits(s: Seq<u8>, i: int, acc: u64, n: u64)
    requires
        0 <= i,
        i + dec_rep(n).len() <= s.len(),
        s.subrange(i, i + dec_rep(n).len()) == dec_rep(n),
        acc * pow10(dec_rep(n).len() as nat) + n <= u64::MAX,
    ensures
        spec_parse_u64_loop(s, i, acc) == spec_parse_u64_loop(
            s,
            i + dec_rep(n).len(),
            (acc * pow10(dec_rep(n).len() as nat) + n) as u64,
        ),
    decreases n,
{
    assert(pow10(0) == 1);
    assert(pow10(1) == 10 * pow10(0));
    if n < 10 {
        assert(dec_rep(n) == seq![(48 + n) as u8]);
        assert(s.subrange(i, i + 1)[0] == s[i]);
        assert(s[i] == (48 + n) as u8);
        assert(is_digit(s[i]));
        let d = (s[i] - 48) as u64;
        assert(d == n);
        assert(dec_rep(n).len() == 1);
        assert(pow10(1) == 10);
        assert(acc * pow10(dec_rep(n).len() as nat) + n == acc * 10 + d);
        lemma_mul_le_div(acc as int, d as int, u64::MAX as int);
        assert(spec_parse_u64_loop(s, i, acc) == spec_parse_u64_loop(s, i + 1, (acc * 10
            + d) as u64));
    } else {
        let m2 = (n / 10) as u64;
        let d = (n % 10) as u64;
        let d8 = (48 + n % 10) as u8;
        let l2 = dec_rep(m2).len();
        assert(dec_rep(n) == dec_rep(m2).push(d8));
        assert(dec_rep(m2).push(d8) =~= dec_rep(m2) + seq![d8]);
        lemma_subrange_split(s, i, dec_rep(m2), seq![d8]);
        assert(pow10((l2 + 1) as nat) == 10 * pow10(l2 as nat));
        lemma_mul_assoc10(acc as int, pow10(l2 as nat));
        lemma_pow10_pos(l2 as nat);
        lemma_mul_nonneg(acc as int, pow10(l2 as nat));
        let mid = acc * pow10(l2 as nat) + m2;
        assert(0 <= mid);
        assert(acc * pow10((l2 + 1) as nat) + n == mid * 10 + d);
        assert(mid <= u64::MAX);
        lemma_parse_digits(s, i, acc, m2);
        let p2 = i + l2;
        assert(s.subrange(p2, p2 + 1)[0] == s[p2]);
        assert(s[p2] == d8);
        assert(is_digit(s[p2]));
        lemma_mul_le_div(mid, d as int, u64::MAX as int);
        assert(spec_parse_u64_loop(s, p2, mid as u64) == spec_parse_u64_loop(s, p2 + 1, ((mid
            as u64) * 10 + d) as u64));
    }
}

/// A decimal representation followed by a non-digit parses back to the
/// number it encodes.
proof fn lemma_rt_u64(s: Seq<u8>, i: int, n: u64)
    requires
        0 <= i,
        i + dec_rep(n).len() <= s.len(),
        s.subrange(i, i + dec_rep(n).len()) == dec_rep(n),
        i + dec_rep(n).len() == s.len() || !is_digit(s[i + dec_rep(n).len()]),
    ensures
        spec_parse_u64(s, i) == Some((n, i + dec_rep(n).len())),
{
    lemma_dec_rep_first(n);
    assert(s.subrange(i, i + dec_rep(n).len())[0] == s[i]);
    assert(is_digit(s[i]));
    assert(0 * pow10(dec_rep(n).len() as nat) == 0) by (nonlinear_arith);
    lemma_parse_digits(s, i, 0, n);
}

/// The `usize` form of the decimal round trip.
proof fn lemma_rt_usize(s: Seq<u8>, i: int, v: usize)
    requires
        0 <= i,
        i + dec_rep(v as u64).len() <= s.len(),
        s.subrange(i, i + dec_rep(v as u64).len()) == dec_rep(v as u64),
        i + dec_rep(v as u64).len() == s.len() || !is_digit(s[i + dec_rep(v as u64).len()]),
    ensures
        spec_parse_usize(s, i) == Some((v, i + dec_rep(v as u64).len())),
{
    lemma_rt_u64(s, i, v as u64);
}

/// The escaped bytes of a name followed by the closing quote parse back
/// to the name.
proof fn lemma_rt_qchars(s: Seq<u8>, i: int, name: Seq<u8>, acc: Seq<u8>)
    requires
        0 <= i,
        i + esc_bytes(name).len() + 1 <= s.len(),
        s.subrange(i, i + esc_bytes(name).len() + 1) == esc_bytes(name) + seq![34u8],
    ensures
        spec_parse_qchars(s, i, acc) == Some((acc + name, i + esc_bytes(name).len() + 1)),
    decreases name.len(),
{
    if name.len() == 0 {
        assert(esc_bytes(name) == Seq::<u8>::empty());
        assert(esc_bytes(name) + seq![34u8] =~= seq![34u8]);
        assert(s.subrange(i, i + 1)[0] == s[i]);
        assert(s[i] == 34);
        assert(acc + name =~= acc);
    } else {
        let b = name[0];
        let e0 = esc_byte(b);
        let rest = name.drop_first();
        assert(esc_bytes(name) == e0 + esc_bytes(rest));
        assert(esc_bytes(name) + seq![34u8] =~= e0 + (esc_bytes(rest) + seq![34u8]));
        lemma_subrange_split(s, i, e0, esc_bytes(rest) + seq![34u8]);
        if b == 34 || b == 92 {
            assert(s.subrange(i, i + 2)[0] == s[i]);
            assert(s.subrange(i, i + 2)[1] == s[i + 1]);
            assert(s[i] == 92);
            assert(s[i + 1] == b);
            lemma_rt_qchars(s, i + 2, rest, acc.push(b));
            assert(acc.push(b) + rest =~= acc + name);
        } else {
            assert(s.subrange(i, i + 1)[0] == s[i]);
            assert(s[i] == b);
            lemma_rt_qchars(s, i + 1, rest, acc.push(b));
            assert(acc.push(b) + rest =~= acc + name);
        }
    }
}

/// A quoted name parses back to itself.
proof fn lemma_rt_qstr(s: Seq<u8>, i: int, name: Seq<u8>)
    requires
        0 <= i,
        i + spec_emit_qstr(name).len() <= s.len(),
        s.subrange(i, i + spec_emit_qstr(name).len()) == spec_emit_qstr(name),
    ensures
        spec_parse_qstr(s, i) == Some((name, i + spec_emit_qstr(name).len())),
{
    assert(spec_emit_qstr(name) =~= seq![34u8] + (esc_bytes(name) + seq![34u8]));
    lemma_subrange_split(s, i, seq![34u8], esc_bytes(name) + seq![34u8]);
    assert(s.subrange(i, i + 1)[0] == s[i]);
    assert(s[i] == 34);
    lemma_rt_qchars(s, i + 1, name, Seq::empty());
    assert(Seq::<u8>::empty() + name =~= name);
}

/// An encoded edit operation parses back to itself.
proof fn lemma_rt_op(s: Seq<u8>, i: int, op: Op)
    requires
        0 <= i,
        i + spec_emit_op(op).len() <= s.len(),
        s.subrange(i, i + spec_emit_op(op).len()) == spec_emit_op(op),
    ensures
        spec_parse_op(s, i) == Some((op, i + spec_emit_op(op).len())),
{
    let start = op->Delete_start;
    let end = op->Delete_end;
    let d1 = dec_rep(start as u64);
    let d2 = dec_rep(end as u64);
    lemma_subrange_split(s, i, lit_op_pre() + d1 + lit_comma() + d2, lit_op_post());
    lemma_subrange_split(s, i, lit_op_pre() + d1 + lit_comma(), d2);
    lemma_subrange_split(s, i, lit_op_pre() + d1, lit_comma());
    lemma_subrange_split(s, i, lit_op_pre(), d1);
    let q1 = i + lit_op_pre().len();
    let q2 = q1 + d1.len();
    let q3 = q2 + lit_comma().len();
    let q4 = q3 + d2.len();
    assert(s.subrange(q2, q2 + lit_comma().len())[0] == s[q2]);
    assert(s[q2] == 44);
    lemma_rt_usize(s, q1, start);
    assert(s.subrange(q4, q4 + lit_op_post().len())[0] == s[q4]);
    assert(s[q4] == 93);
    lemma_rt_usize(s, q3, end);
}

/// An encoded span parses back to itself.
proof fn lemma_rt_span(s: Seq<u8>, i: int, sp: Option<Span>)
    requires
        0 <= i,
        i + spec_emit_span(sp).len() <= s.len(),
        s.subrange(i, i + spec_emit_span(sp).len()) == spec_emit_span(sp),
    ensures
        spec_parse_span(s, i) == Some((sp, i + spec_emit_span(sp).len())),
{
    match sp {
        None => {
        },
        Some(Span::Bounded { start, end }) => {
            let d1 = dec_rep(start as u64);
            let d2 = dec_rep(end as u64);
            assert(s.subrange(i, i + spec_emit_span(sp).len())[0] == s[i]);
            assert(s[i] == 123);
            lemma_expect_differs_at(s, i, lit_null(), 0);
            lemma_subrange_split(s, i, lit_range_pre() + d1 + lit_comma() + d2, lit_rb_cb());
            lemma_subrange_split(s, i, lit_range_pre() + d1 + lit_comma(), d2);
            lemma_subrange_split(s, i, lit_range_pre() + d1, lit_comma());
            lemma_subrange_split(s, i, lit_range_pre(), d1);
            let q1 = i + lit_range_pre().len();
            let q2 = q1 + d1.len();
            let q3 = q2 + lit_comma().len();
            let q4 = q3 + d2.len();
            assert(s.subrange(q2, q2 + lit_comma().len())[0] == s[q2]);
            assert(s[q2] == 44);
            lemma_rt_usize(s, q1, start);
            assert(s.subrange(q4, q4 + lit_rb_cb().len())[0] == s[q4]);
            assert(s[q4] == 93);
            lemma_rt_usize(s, q3, end);
        },
        Some(Span::Open { start }) => {
            let d1 = dec_rep(start as u64);
            assert(s.subrange(i, i + spec_emit_span(sp).len())[0] == s[i]);
            assert(s[i] == 123);
            lemma_expect_differs_at(s, i, lit_null(), 0);
            assert(s.subrange(i, i + spec_emit_span(sp).len())[2] == s[i + 2]);
            assert(s[i + 2] == 102);
            lemma_expect_differs_at(s, i, lit_range_pre(), 2);
            lemma_subrange_split(s, i, lit_from_pre() + d1, lit_cb());
            lemma_subrange_split(s, i, lit_from_pre(), d1);
            let q1 = i + lit_from_pre().len();
            let q2 = q1 + d1.len();
            assert(s.subrange(q2, q2 + lit_cb().len())[0] == s[q2]);
            assert(s[q2] == 125);
            lemma_rt_usize(s, q1, start);
        },
    }
}

/// An encoded classification parses back to itself.
proof fn lemma_rt_kind(s: Seq<u8>, i: int, k: KindModel)
    requires
        0 <= i,
        i + spec_emit_kind(k).len() <= s.len(),
        s.subrange(i, i + spec_emit_kind(k).len()) == spec_emit_kind(k),
    ensures
        spec_parse_kind(s, i) == Some((k, i + spec_emit_kind(k).len())),
{
    match k {
        KindModel::Condition => {
        },
        KindModel::Tilt => {
            assert(s.subrange(i, i + spec_emit_kind(k).len())[1] == s[i + 1]);
            assert(s[i + 1] == 116);
            lemma_expect_differs_at(s, i, lit_cond(), 1);
        },
        KindModel::Merit { subkind: None } => {
            assert(s.subrange(i, i + spec_emit_kind(k).len())[0] == s[i]);
            assert(s[i] == 123);
            lemma_expect_differs_at(s, i, lit_cond(), 0);
            lemma_expect_differs_at(s, i, lit_tilt(), 0);
        },
        KindModel::Merit { subkind: Some(sub) } => {
            let q = spec_emit_qstr(sub);
            assert(s.subrange(i, i + spec_emit_kind(k).len())[0] == s[i]);
            assert(s[i] == 123);
            lemma_expect_differs_at(s, i, lit_cond(), 0);
            lemma_expect_differs_at(s, i, lit_tilt(), 0);
            lemma_subrange_split(s, i, lit_merit_pre() + q, lit_cb());
            lemma_subrange_split(s, i, lit_merit_pre(), q);
            let q1 = i + lit_merit_pre().len();
            let q2 = q1 + q.len();
            assert(s.subrange(q1, q2)[0] == s[q1]);
            assert(s[q1] == 34);
            assert(s[i + 10] == 34);
            lemma_expect_differs_at(s, i, lit_merit_none(), 10);
            lemma_rt_qstr(s, q1, sub);
            assert(s.subrange(q2, q2 + lit_cb().len())[0] == s[q2]);
            assert(s[q2] == 125);
        },
    }
}

/// The encoded operations after the first, and the closing bracket, parse
/// back onto the accumulator.
proof fn lemma_rt_ops_rest(s: Seq<u8>, i: int, rest: Seq<Op>, acc: Seq<Op>)
    requires
        0 <= i,
        i + spec_emit_ops_tail(rest).len() + lit_ops_end().len() <= s.len(),
        s.subrange(i, i + spec_emit_ops_tail(rest).len() + lit_ops_end().len())
            == spec_emit_ops_tail(rest) + lit_ops_end(),
    ensures
        spec_parse_ops_rest(s, i, acc) == Some(
            (acc + rest, i + spec_emit_ops_tail(rest).len() + lit_ops_end().len()),
        ),
    decreases rest.len(),
{
    if rest.len() == 0 {
        assert(spec_emit_ops_tail(rest) == Seq::<u8>::empty());
        assert(spec_emit_ops_tail(rest) + lit_ops_end() =~= lit_ops_end());
        assert(s.subrange(i, i + lit_ops_end().len())[0] == s[i]);
        assert(s[i] == 10);
        lemma_expect_differs_at(s, i, lit_sep(), 0);
        assert(acc + rest =~= acc);
    } else {
        let e0 = spec_emit_op(rest[0]);
        let tail = spec_emit_ops_tail(rest.drop_first());
        assert(spec_emit_ops_tail(rest) == lit_sep() + e0 + tail);
        assert(spec_emit_ops_tail(rest) + lit_ops_end() =~= lit_sep() + (e0 + (tail
            + lit_ops_end())));
        assert((e0 + (tail + lit_ops_end())).len() == e0.len() + tail.len()
            + lit_ops_end().len());
        lemma_subrange_split(s, i, lit_sep(), e0 + (tail + lit_ops_end()));
        let q1 = i + lit_sep().len();
        lemma_subrange_split(s, q1, e0, tail + lit_ops_end());
        let q2 = q1 + e0.len();
        lemma_rt_op(s, q1, rest[0]);
        lemma_rt_ops_rest(s, q2, rest.drop_first(), acc.push(rest[0]));
        assert(acc.push(rest[0]) + rest.drop_first() =~= acc + rest);
    }
}

/// An encoded operation log parses back to itself.
proof fn lemma_rt_ops(s: Seq<u8>, i: int, ops: Seq<Op>)
    requires
        0 <= i,
        i + spec_emit_ops(ops).len() <= s.len(),
        s.subrange(i, i + spec_emit_ops(ops).len()) == spec_emit_ops(ops),
    ensures
        spec_parse_ops(s, i) == Some((ops, i + spec_emit_ops(ops).len())),
{
    if ops.len() == 0 {
        assert(ops =~= Seq::<Op>::empty());
    } else {
        let e0 = spec_emit_op(ops[0]);
        let tail = spec_emit_ops_tail(ops.drop_first());
        assert(s.subrange(i, i + spec_emit_ops(ops).len())[0] == s[i]);
        assert(s[i] == 10);
        lemma_expect_differs_at(s, i, lit_ops_none(), 0);
        assert(spec_emit_ops(ops) =~= lit_nl() + (e0 + (tail + lit_ops_end())));
        lemma_subrange_split(s, i, lit_nl(), e0 + (tail + lit_ops_end()));
        let q1 = i + lit_nl().len();
        lemma_subrange_split(s, q1, e0, tail + lit_ops_end());
        let q2 = q1 + e0.len();
        lemma_rt_op(s, q1, ops[0]);
        lemma_rt_ops_rest(s, q2, ops.drop_first(), seq![ops[0]]);
        assert(seq![ops[0]] + ops.drop_first() =~= ops);
    }
}

/// An encoded section parses back to itself.
#[verifier::rlimit(100)]
proof fn lemma_rt_section(s: Seq<u8>, i: int, sec: SectionModel)
    requires
        0 <= i,
        i + spec_emit_section(sec).len() <= s.len(),
        s.subrange(i, i + spec_emit_section(sec).len()) == spec_emit_section(sec),
    ensures
        spec_parse_section(s, i) == Some((sec, i + spec_emit_section(sec).len())),
{
    let qn = spec_emit_qstr(sec.name);
    let d1 = dec_rep(sec.pages.start as u64);
    let d2 = dec_rep(sec.pages.end as u64);
    let esp = spec_emit_span(sec.span);
    let ek = spec_emit_kind(sec.kind);
    let eo = spec_emit_ops(sec.ops);
    let c1 = lit_sec_pre() + qn;
    let c2 = c1 + lit_pages();
    let c3 = c2 + d1;
    let c4 = c3 + lit_comma();
    let c5 = c4 + d2;
    let c6 = c5 + lit_span();
    let c7 = c6 + esp;
    let c8 = c7 + lit_kind();
    let c9 = c8 + ek;
    let c10 = c9 + lit_ops();
    let c11 = c10 + eo;
    lemma_subrange_split(s, i, c11, lit_sec_end());
    lemma_subrange_split(s, i, c10, eo);
    lemma_subrange_split(s, i, c9, lit_ops());
    lemma_subrange_split(s, i, c8, ek);
    lemma_subrange_split(s, i, c7, lit_kind());
    lemma_subrange_split(s, i, c6, esp);
    lemma_subrange_split(s, i, c5, lit_span());
    lemma_subrange_split(s, i, c4, d2);
    lemma_subrange_split(s, i, c3, lit_comma());
    lemma_subrange_split(s, i, c2, d1);
    lemma_subrange_split(s, i, c1, lit_pages());
    lemma_subrange_split(s, i, lit_sec_pre(), qn);
    let p1 = i + lit_sec_pre().len();
    lemma_rt_qstr(s, p1, sec.name);
    let p2 = p1 + qn.len();
    let p3 = p2 + lit_pages().len();
    assert(s.subrange(i + c3.len(), i + c4.len())[0] == s[i + c3.len()]);
    assert(s[i + c3.len()] == 44);
    lemma_rt_usize(s, p3, sec.pages.start);
    let p4 = p3 + d1.len() + lit_comma().len();
    assert(s.subrange(i + c5.len(), i + c6.len())[0] == s[i + c5.len()]);
    assert(s[i + c5.len()] == 93);
    lemma_rt_usize(s, p4, sec.pages.end);
    let p5 = p4 + d2.len() + lit_span().len();
    lemma_rt_span(s, p5, sec.span);
    let p6 = p5 + esp.len() + lit_kind().len();
    lemma_rt_kind(s, p6, sec.kind);
    let p7 = p6 + ek.len() + lit_ops().len();
    lemma_rt_ops(s, p7, sec.ops);
}

/// The encoded sections after the first, and the record's closing bytes,
/// parse back onto the accumulator.
#[verifier::rlimit(100)]
#[verifier::spinoff_prover]
proof fn lemma_rt_secs_rest(s: Seq<u8>, i: int, rest: Seq<SectionModel>, acc: Seq<SectionModel>)
    requires
        0 <= i,
        i + spec_emit_secs_tail(rest).len() + lit_secs_end().len() <= s.len(),
        s.subrange(i, i + spec_emit_secs_tail(rest).len() + lit_secs_end().len())
            == spec_emit_secs_tail(rest) + lit_secs_end(),
    ensures
        spec_parse_secs_rest(s, i, acc) == Some(
            (acc + rest, i + spec_emit_secs_tail(rest).len() + lit_secs_end().len()),
        ),
    decreases rest.len(),
{
    if rest.len() == 0 {
        assert(spec_emit_secs_tail(rest) == Seq::<u8>::empty());
        assert(spec_emit_secs_tail(rest) + lit_secs_end() =~= lit_secs_end());
        assert(s.subrange(i, i + lit_secs_end().len())[0] == s[i]);
        assert(s[i] == 10);
        lemma_expect_differs_at(s, i, lit_sep(), 0);
        assert(acc + rest =~= acc);
    } else {
        let e0 = spec_emit_section(rest[0]);
        let tail = spec_emit_secs_tail(rest.drop_first());
        assert(spec_emit_secs_tail(rest) == lit_sep() + e0 + tail);
        assert(spec_emit_secs_tail(rest) + lit_secs_end() =~= lit_sep() + (e0 + (tail
            + lit_secs_end())));
        assert((e0 + (tail + lit_secs_end())).len() == e0.len() + tail.len()
            + lit_secs_end().len());
        lemma_subrange_split(s, i, lit_sep(), e0 + (tail + lit_secs_end()));
        let q1 = i + lit_sep().len();
        lemma_subrange_split(s, q1, e0, tail + lit_secs_end());
        let q2 = q1 + e0.len();
        lemma_rt_section(s, q1, rest[0]);
        lemma_rt_secs_rest(s, q2, rest.drop_first(), acc.push(rest[0]));
        assert(acc.push(rest[0]) + rest.drop_first() =~= acc + rest);
    }
}

/// The encoded non-empty section list, standing at `p3` and reaching the
/// end of the input, parses back to the list.
#[verifier::rlimit(100)]
proof fn lemma_rt_meta_tail(s: Seq<u8>, p3: int, ss: Seq<SectionModel>)
    requires
        0 <= p3,
        ss.len() > 0,
        p3 + (lit_nl() + spec_emit_section(ss[0]) + spec_emit_secs_tail(ss.drop_first())
            + lit_secs_end()).len() <= s.len(),
        s.subrange(
            p3,
            p3 + (lit_nl() + spec_emit_section(ss[0]) + spec_emit_secs_tail(ss.drop_first())
                + lit_secs_end()).len(),
        ) == lit_nl() + spec_emit_section(ss[0]) + spec_emit_secs_tail(ss.drop_first())
            + lit_secs_end(),
    ensures
        spec_expect(s, p3, lit_secs_none()) is None,
        spec_expect(s, p3, lit_nl()) == Some(p3 + 1),
        spec_parse_section(s, p3 + 1) == Some((ss[0], p3 + 1 + spec_emit_section(ss[0]).len())),
        spec_parse_secs_rest(s, p3 + 1 + spec_emit_section(ss[0]).len(), seq![ss[0]]) == Some(
            (ss, p3 + (lit_nl() + spec_emit_section(ss[0]) + spec_emit_secs_tail(
                ss.drop_first(),
            ) + lit_secs_end()).len()),
        ),
{
    let e0 = spec_emit_section(ss[0]);
    let tail = spec_emit_secs_tail(ss.drop_first());
    let body = lit_nl() + e0 + tail + lit_secs_end();
    assert(s.subrange(p3, p3 + body.len())[0] == s[p3]);
    assert(s[p3] == 10);
    lemma_expect_differs_at(s, p3, lit_secs_none(), 0);
    assert(body =~= lit_nl() + (e0 + (tail + lit_secs_end())));
    lemma_subrange_split(s, p3, lit_nl(), e0 + (tail + lit_secs_end()));
    let q1 = p3 + lit_nl().len();
    lemma_subrange_split(s, q1, e0, tail + lit_secs_end());
    let q2 = q1 + e0.len();
    lemma_rt_section(s, q1, ss[0]);
    lemma_rt_secs_rest(s, q2, ss.drop_first(), seq![ss[0]]);
    assert(seq![ss[0]] + ss.drop_first() =~= ss);
}

/// Round trip: a record encoded to its canonical sidecar form and parsed
/// back is the same record. Loading a saved record returns it unchanged.
#[verifier::rlimit(100)]
#[verifier::spinoff_prover]
pub proof fn lemma_encode_decode_round_trip(m: MetaModel)
    ensures
        spec_decode_meta(spec_encode_meta(m)) == Some(m),
{
    let s = spec_encode_meta(m);
    let dh = dec_rep(m.hash);
    let dt = dec_rep(m.timestamp);
    let c1 = lit_head() + dh;
    let c2 = c1 + lit_ts();
    let c3 = c2 + dt;
    let c4 = c3 + lit_secs();
    let body = if m.sections.len() == 0 {
        lit_secs_none()
    } else {
        lit_nl() + spec_emit_section(m.sections[0]) + spec_emit_secs_tail(m.sections.drop_first())
            + lit_secs_end()
    };
    assert(s == c4 + body);
    assert(s.subrange(0, s.len() as int) =~= s);
    lemma_subrange_split(s, 0, c4, body);
    lemma_subrange_split(s, 0, c3, lit_secs());
    lemma_subrange_split(s, 0, c2, dt);
    lemma_subrange_split(s, 0, c1, lit_ts());
    lemma_subrange_split(s, 0, lit_head(), dh);
    let p1 = lit_head().len() as int;
    assert(s.subrange(c1.len() as int, c2.len() as int)[0] == s[c1.len() as int]);
    assert(s[c1.len() as int] == 44);
    lemma_rt_u64(s, p1, m.hash);
    let p2 = c2.len() as int;
    assert(s.subrange(c3.len() as int, c4.len() as int)[0] == s[c3.len() as int]);
    assert(s[c3.len() as int] == 44);
    lemma_rt_u64(s, p2, m.timestamp);
    let p3 = c4.len() as int;
    if m.sections.len() == 0 {
        assert(spec_decode_meta(s) == Some(
            MetaModel { hash: m.hash, timestamp: m.timestamp, sections: Seq::empty() },
        ));
        assert(m.sections =~= Seq::<SectionModel>::empty());
    } else {
        lemma_rt_meta_tail(s, p3, m.sections);
        assert(p3 + body.len() == s.len());
    }
}

} // verus!
