//! The wire format of commands and responses.
//!
//! Every message is one text frame holding a JSON object with a `type` field
//! naming the variant, followed by that variant's fields in a fixed order,
//! with no spaces and numbers in canonical decimal. The encoder produces
//! exactly this canonical form and the decoder accepts exactly it; anything
//! else is a protocol error, never a panic.

use crate::color::Color;
use crate::protocol::{Command, Response};
use vstd::prelude::*;
use vstd::string::StringSliceAdditionalSpecFns;

verus! {

/// A frame that is not the canonical encoding of any message.
#[derive(Clone, Copy, Debug, PartialEq, Eq, Structural)]
pub struct ProtocolError;

/// The bytes of an ASCII string: each character as one byte.
pub open spec fn lit_bytes(s: &str) -> Seq<u8> {
    Seq::new(s@.len(), |i: int| s@[i] as u8)
}

/// `p` occurs in `s` at offset `i`.
pub open spec fn starts_with_at(s: Seq<u8>, i: int, p: Seq<u8>) -> bool {
    &&& 0 <= i
    &&& i + p.len() <= s.len()
    &&& s.subrange(i, i + p.len()) == p
}

/// Bridges an ASCII literal's UTF-8 bytes to its per-character bytes.
proof fn lemma_lit_bytes(lit: &str)
    requires
        vstd::string::is_ascii(lit),
    ensures
        lit.spec_bytes() == lit_bytes(lit),
        lit.spec_bytes().len() == lit@.len(),
{
    vstd::string::is_ascii_spec_bytes(lit);
    assert(lit.spec_bytes() =~= lit_bytes(lit));
}

/// Whether the bytes of `lit` stand in `s` at offset `i`.
fn match_lit(s: &Vec<u8>, i: usize, lit: &str) -> (b: bool)
    requires
        vstd::string::is_ascii(lit),
    ensures
        b == starts_with_at(s@, i as int, lit_bytes(lit)),
{
    proof {
        lemma_lit_bytes(lit);
    }
    let lb = lit.as_bytes();
    if i > s.len() || lb.len() > s.len() - i {
        return false;
    }
    let mut k: usize = 0;
    while k < lb.len()
        invariant
            0 <= k <= lb@.len(),
            i + lb@.len() <= s@.len(),
            lb@ == lit_bytes(lit),
            forall|m: int| 0 <= m < k ==> s@[i + m] == lb@[m],
        decreases lb@.len() - k,
    {
        proof {
            assert(s.len() == s@.len());
            assert(i + k < s@.len());
        }
        if s[i + k] != lb[k] {
            proof {
                assert(s@.subrange(i as int, i + lb@.len())[k as int] == s@[i + k]);
            }
            return false;
        }
        k += 1;
    }
    proof {
        assert(s@.subrange(i as int, i + lb@.len()) =~= lb@);
    }
    true
}

/// Appends the bytes of an ASCII literal.
fn push_lit(out: &mut Vec<u8>, lit: &str)
    requires
        vstd::string::is_ascii(lit),
    ensures
        final(out)@ == old(out)@ + lit_bytes(lit),
{
    proof {
        lemma_lit_bytes(lit);
    }
    let lb = lit.as_bytes();
    out.extend_from_slice(lb);
}

/// An ASCII decimal digit.
pub open spec fn is_digit(b: u8) -> bool {
    48 <= b <= 57
}

/// Every byte of `s` is a decimal digit.
pub open spec fn all_digits(s: Seq<u8>) -> bool {
    forall|i: int| 0 <= i < s.len() ==> is_digit(#[trigger] s[i])
}

/// The canonical decimal digits of `n`: no sign, no leading zero.
pub open spec fn dec_digits(n: int) -> Seq<u8>
    recommends
        n >= 0,
    decreases n,
{
    if n <= 9 {
        seq![(48 + n) as u8]
    } else {
        dec_digits(n / 10).push((48 + n % 10) as u8)
    }
}

/// The value of a digit string.
pub open spec fn dec_val(s: Seq<u8>) -> int
    decreases s.len(),
{
    if s.len() == 0 {
        0
    } else {
        dec_val(s.drop_last()) * 10 + (s.last() - 48)
    }
}

/// A digit string as a number is written: nonempty, digits only, and no
/// leading zero unless it is exactly "0".
pub open spec fn canonical_dec(s: Seq<u8>) -> bool {
    &&& s.len() > 0
    &&& all_digits(s)
    &&& s.len() > 1 ==> s[0] != 48
}

/// The canonical digits of `n` are canonical and read back as `n`.
pub proof fn lemma_dec_digits_props(n: int)
    requires
        n >= 0,
    ensures
        canonical_dec(dec_digits(n)),
        dec_val(dec_digits(n)) == n,
        n <= 9 ==> dec_digits(n).len() == 1,
        n > 9 ==> dec_digits(n).len() > 1,
    decreases n,
{
    if n <= 9 {
        let d = dec_digits(n);
        assert(d =~= seq![(48 + n) as u8]);
        assert(d.drop_last() =~= Seq::<u8>::empty());
        assert(dec_val(d.drop_last()) == 0);
        assert(dec_val(d) == d.last() - 48);
    } else {
        lemma_dec_digits_props(n / 10);
        let d = dec_digits(n);
        assert(d == dec_digits(n / 10).push((48 + n % 10) as u8));
        assert(d.drop_last() =~= dec_digits(n / 10));
        assert(d.last() == (48 + n % 10) as u8);
        assert(dec_val(d) == (n / 10) * 10 + n % 10);
        assert((n / 10) * 10 + n % 10 == n) by (nonlinear_arith)
            requires
                n > 9,
        ;
        assert(d[0] == dec_digits(n / 10)[0]);
    }
}

/// A canonical digit string is the canonical digits of its own value.
pub proof fn lemma_canonical_dec_digits(s: Seq<u8>)
    requires
        canonical_dec(s),
    ensures
        dec_val(s) >= 0,
        dec_digits(dec_val(s)) == s,
        s.len() > 1 ==> dec_val(s) > 9,
    decreases s.len(),
{
    if s.len() == 1 {
        assert(is_digit(s[0]));
        assert(s.drop_last() =~= Seq::<u8>::empty());
        assert(dec_val(Seq::<u8>::empty()) == 0);
        assert(dec_val(s) == s.last() - 48);
        assert(s.last() == s[0]);
        assert(dec_digits(dec_val(s)) =~= s);
    } else {
        let front = s.drop_last();
        assert(forall|i: int| 0 <= i < front.len() ==> front[i] == s[i]);
        assert(canonical_dec(front));
        lemma_canonical_dec_digits(front);
        lemma_dec_val_positive(front);
        let m = dec_val(front);
        let d = (s.last() - 48) as int;
        assert(dec_val(s) == m * 10 + d);
        assert(m >= 1);
        assert(dec_val(s) > 9) by (nonlinear_arith)
            requires
                m >= 1,
                d >= 0,
                dec_val(s) == m * 10 + d,
        ;
        assert(dec_val(s) / 10 == m && dec_val(s) % 10 == d) by (nonlinear_arith)
            requires
                0 <= d < 10,
                dec_val(s) == m * 10 + d,
                m >= 0,
        ;
        assert(dec_digits(dec_val(s)) == dec_digits(m).push((48 + d) as u8));
        assert(dec_digits(dec_val(s)) =~= s);
    }
}

/// A digit string that does not start with '0' has a positive value.
proof fn lemma_dec_val_positive(s: Seq<u8>)
    requires
        s.len() > 0,
        all_digits(s),
        s[0] != 48,
    ensures
        dec_val(s) >= 1,
    decreases s.len(),
{
    if s.len() == 1 {
        assert(s.drop_last() =~= Seq::<u8>::empty());
        assert(dec_val(Seq::<u8>::empty()) == 0);
        assert(dec_val(s) == s.last() - 48);
        assert(s.last() == s[0]);
    } else {
        let front = s.drop_last();
        assert(forall|i: int| 0 <= i < front.len() ==> front[i] == s[i]);
        lemma_dec_val_positive(front);
        assert(dec_val(s) == dec_val(front) * 10 + (s.last() - 48));
        assert(dec_val(s) >= 1) by (nonlinear_arith)
            requires
                dec_val(front) >= 1,
                s.last() >= 48,
                dec_val(s) == dec_val(front) * 10 + (s.last() - 48),
        ;
    }
}

/// Digit strings are non-negative.
proof fn lemma_dec_val_nonneg(s: Seq<u8>)
    requires
        all_digits(s),
    ensures
        dec_val(s) >= 0,
    decreases s.len(),
{
    if s.len() > 0 {
        let front = s.drop_last();
        assert(forall|i: int| 0 <= i < front.len() ==> front[i] == s[i]);
        lemma_dec_val_nonneg(front);
        assert(dec_val(s) >= 0) by (nonlinear_arith)
            requires
                dec_val(s.drop_last()) >= 0,
                s.last() >= 48,
                dec_val(s) == dec_val(s.drop_last()) * 10 + (s.last() - 48),
        ;
    }
}

/// Appends the canonical decimal digits of `n`.
fn push_u32(out: &mut Vec<u8>, n: u32)
    ensures
        final(out)@ == old(out)@ + dec_digits(n as int),
    decreases n,
{
    if n <= 9 {
        out.push(48 + n as u8);
        proof {
            assert(final(out)@ =~= old(out)@ + dec_digits(n as int));
        }
    } else {
        push_u32(out, n / 10);
        out.push(48 + (n % 10) as u8);
        proof {
            assert(final(out)@ =~= old(out)@ + dec_digits(n as int));
        }
    }
}

/// Where the run of digits starting at `i` ends.
pub open spec fn run_end(s: Seq<u8>, i: int) -> int
    recommends
        0 <= i <= s.len(),
    decreases s.len() - i,
{
    if i < s.len() && is_digit(s[i]) {
        run_end(s, i + 1)
    } else {
        i
    }
}

/// The digit run: it is all digits, maximal, and within bounds.
pub proof fn lemma_run_end(s: Seq<u8>, i: int)
    requires
        0 <= i <= s.len(),
    ensures
        i <= run_end(s, i) <= s.len(),
        forall|k: int| i <= k < run_end(s, i) ==> is_digit(#[trigger] s[k]),
        run_end(s, i) < s.len() ==> !is_digit(s[run_end(s, i)]),
    decreases s.len() - i,
{
    if i < s.len() && is_digit(s[i]) {
        lemma_run_end(s, i + 1);
    }
}

/// Appending digits never lowers the value.
proof fn lemma_dec_val_append(a: Seq<u8>, b: Seq<u8>)
    requires
        all_digits(a),
        all_digits(b),
    ensures
        dec_val(a + b) >= dec_val(a),
    decreases b.len(),
{
    if b.len() == 0 {
        assert(a + b =~= a);
    } else {
        let b2 = b.drop_last();
        assert(all_digits(b2));
        lemma_dec_val_append(a, b2);
        assert((a + b).drop_last() =~= a + b2);
        assert(all_digits(a + b2));
        lemma_dec_val_nonneg(a + b2);
        assert((a + b).last() == b.last());
        assert(dec_val(a + b) == dec_val(a + b2) * 10 + (b.last() - 48));
        assert(dec_val(a + b) >= dec_val(a + b2)) by (nonlinear_arith)
            requires
                dec_val(a + b2) >= 0,
                b.last() >= 48,
                dec_val(a + b) == dec_val(a + b2) * 10 + (b.last() - 48),
        ;
    }
}

/// A stretch of digits keeps the digit run going at least that far.
proof fn lemma_run_end_lower(s: Seq<u8>, i: int, j: int)
    requires
        0 <= i <= j <= s.len(),
        forall|k: int| i <= k < j ==> is_digit(#[trigger] s[k]),
    ensures
        run_end(s, i) >= j,
    decreases j - i,
{
    lemma_run_end(s, i);
    if i < j {
        assert(is_digit(s[i]));
        lemma_run_end_lower(s, i + 1, j);
        assert(run_end(s, i) == run_end(s, i + 1));
    }
}

/// A run of digits followed by a non-digit (or the end) is exactly the
/// maximal digit run.
pub proof fn lemma_run_end_of(s: Seq<u8>, i: int, d: Seq<u8>)
    requires
        0 <= i,
        all_digits(d),
        starts_with_at(s, i, d),
        i + d.len() == s.len() || !is_digit(s[i + d.len()]),
    ensures
        run_end(s, i) == i + d.len(),
    decreases d.len(),
{
    assert(forall|k: int|
        0 <= k < d.len() ==> #[trigger] s.subrange(i, i + d.len())[k] == s[i + k]);
    if d.len() == 0 {
    } else {
        assert(s.subrange(i, i + d.len())[0] == s[i]);
        assert(s[i] == d[0]);
        assert(is_digit(s[i]));
        let d2 = d.drop_first();
        assert(all_digits(d2));
        assert(starts_with_at(s, i + 1, d2)) by {
            assert(s.subrange(i + 1, i + 1 + d2.len()) =~= d2);
        }
        lemma_run_end_of(s, i + 1, d2);
    }
}

/// Reads the digit run starting at `i` as a number. Succeeds exactly when
/// the run is a canonical decimal whose value fits in a `u32`, and then
/// leaves the cursor on the byte after the run.
fn parse_u32(s: &Vec<u8>, i: usize) -> (r: Option<(u32, usize)>)
    requires
        i <= s@.len(),
    ensures
        ({
            let e = run_end(s@, i as int);
            let run = s@.subrange(i as int, e);
            &&& (r matches Some((n, j)) ==> j == e && canonical_dec(run) && run == dec_digits(
                n as int,
            ) && n == dec_val(run))
            &&& (r is Some <==> canonical_dec(run) && dec_val(run) <= u32::MAX)
        }),
{
    proof {
        lemma_run_end(s@, i as int);
    }
    let mut j = i;
    let mut n: u32 = 0;
    while j < s.len() && s[j] >= 48 && s[j] <= 57
        invariant
            i <= j <= s@.len(),
            j <= run_end(s@, i as int),
            forall|k: int| i <= k < j ==> is_digit(#[trigger] s@[k]),
            n == dec_val(s@.subrange(i as int, j as int)),
            run_end(s@, i as int) == run_end(s@, j as int),
        decreases s@.len() - j,
    {
        let d = s[j] - 48;
        let wide: u64 = n as u64 * 10 + d as u64;
        proof {
            let part = s@.subrange(i as int, j as int);
            let part2 = s@.subrange(i as int, j + 1);
            assert(part2.drop_last() =~= part);
            assert(part2.last() == s@[j as int]);
            assert(dec_val(part2) == wide);
        }
        if wide > u32::MAX as u64 {
            proof {
                let e = run_end(s@, i as int);
                let part2 = s@.subrange(i as int, j + 1);
                lemma_run_end_lower(s@, j as int, j + 1);
                assert(run_end(s@, j as int) >= j + 1);
                lemma_run_end(s@, j + 1);
                assert(run_end(s@, j + 1) == e) by {
                    assert(run_end(s@, j as int) == run_end(s@, j + 1));
                }
                assert(j + 1 <= e);
                let rest = s@.subrange(j + 1, e);
                let run = s@.subrange(i as int, e);
                assert(run =~= part2 + rest);
                assert(all_digits(part2));
                assert(all_digits(rest)) by {
                    lemma_run_end(s@, i as int);
                }
                lemma_dec_val_append(part2, rest);
                assert(dec_val(run) > u32::MAX);
            }
            return None;
        }
        n = wide as u32;
        proof {
            assert(run_end(s@, j as int) == run_end(s@, j + 1));
            lemma_run_end(s@, j + 1);
        }
        j += 1;
    }
    proof {
        let e = run_end(s@, i as int);
        assert(e == j) by {
            lemma_run_end(s@, j as int);
        }
    }
    if j == i {
        return None;
    }
    if s[i] == 48 && j > i + 1 {
        proof {
            let run = s@.subrange(i as int, j as int);
            assert(run[0] == s@[i as int]);
            assert(!canonical_dec(run));
        }
        return None;
    }
    proof {
        let run = s@.subrange(i as int, j as int);
        assert(run[0] == s@[i as int]);
        assert(canonical_dec(run));
        lemma_canonical_dec_digits(run);
    }
    Some((n, j))
}

/// The whole frame of a `CreateGame` command.
pub open spec fn pre_create() -> Seq<u8> {
    lit_bytes("{\"type\":\"CreateGame\"}")
}

/// Opens an `AvailableColors` command, up to its id digits.
pub open spec fn pre_avail() -> Seq<u8> {
    lit_bytes("{\"type\":\"AvailableColors\",\"id\":")
}

/// Opens a `JoinGame` command, up to its id digits.
pub open spec fn pre_join() -> Seq<u8> {
    lit_bytes("{\"type\":\"JoinGame\",\"id\":")
}

/// Opens a `StartGame` command, up to its id digits.
pub open spec fn pre_start() -> Seq<u8> {
    lit_bytes("{\"type\":\"StartGame\",\"id\":")
}

/// Separates an id from the color field that follows it.
pub open spec fn sep_color() -> Seq<u8> {
    lit_bytes(",\"color\":")
}

/// Closes a frame.
pub open spec fn close_brace() -> Seq<u8> {
    lit_bytes("}")
}

/// A color as its own tagged object.
pub open spec fn wire_color(c: Color) -> Seq<u8> {
    match c {
        Color::Yellow => lit_bytes("{\"type\":\"Yellow\"}"),
        Color::Blue => lit_bytes("{\"type\":\"Blue\"}"),
        Color::Red => lit_bytes("{\"type\":\"Red\"}"),
        Color::Green => lit_bytes("{\"type\":\"Green\"}"),
    }
}

/// The canonical frame of a command.
pub open spec fn wire_command(c: Command) -> Seq<u8> {
    match c {
        Command::CreateGame => pre_create(),
        Command::AvailableColors { id } => pre_avail() + dec_digits(id as int) + close_brace(),
        Command::JoinGame { id, color } => pre_join() + dec_digits(id as int) + sep_color()
            + wire_color(color) + close_brace(),
        Command::StartGame { id } => pre_start() + dec_digits(id as int) + close_brace(),
    }
}

/// Concrete shape of the command and color literals: their lengths, the
/// bytes that tell them apart, and that they are ASCII.
proof fn lemma_cmd_lit_facts()
    ensures
        vstd::string::is_ascii("{\"type\":\"CreateGame\"}"),
        vstd::string::is_ascii("{\"type\":\"AvailableColors\",\"id\":"),
        vstd::string::is_ascii("{\"type\":\"JoinGame\",\"id\":"),
        vstd::string::is_ascii("{\"type\":\"StartGame\",\"id\":"),
        vstd::string::is_ascii(",\"color\":"),
        vstd::string::is_ascii("}"),
        vstd::string::is_ascii("{\"type\":\"Yellow\"}"),
        vstd::string::is_ascii("{\"type\":\"Blue\"}"),
        vstd::string::is_ascii("{\"type\":\"Red\"}"),
        vstd::string::is_ascii("{\"type\":\"Green\"}"),
        pre_create().len() == 21,
        pre_avail().len() == 31,
        pre_join().len() == 24,
        pre_start().len() == 25,
        sep_color().len() == 9,
        close_brace().len() == 1,
        wire_color(Color::Yellow).len() == 17,
        wire_color(Color::Blue).len() == 15,
        wire_color(Color::Red).len() == 14,
        wire_color(Color::Green).len() == 16,
        pre_create()[9] == 67,
        pre_avail()[9] == 65,
        pre_join()[9] == 74,
        pre_start()[9] == 83,
        wire_color(Color::Yellow)[9] == 89,
        wire_color(Color::Blue)[9] == 66,
        wire_color(Color::Red)[9] == 82,
        wire_color(Color::Green)[9] == 71,
        forall|c: Color| (#[trigger] wire_color(c))[0] == 123,
        forall|c: Color| 14 <= (#[trigger] wire_color(c)).len() <= 17,
        close_brace()[0] == 125,
        sep_color()[0] == 44,
{
    reveal_strlit("{\"type\":\"CreateGame\"}");
    reveal_strlit("{\"type\":\"AvailableColors\",\"id\":");
    reveal_strlit("{\"type\":\"JoinGame\",\"id\":");
    reveal_strlit("{\"type\":\"StartGame\",\"id\":");
    reveal_strlit(",\"color\":");
    reveal_strlit("}");
    reveal_strlit("{\"type\":\"Yellow\"}");
    reveal_strlit("{\"type\":\"Blue\"}");
    reveal_strlit("{\"type\":\"Red\"}");
    reveal_strlit("{\"type\":\"Green\"}");
    assert forall|c: Color| (#[trigger] wire_color(c))[0] == 123 by {
        match c {
            Color::Yellow => assert(wire_color(c)[0] == 123),
            Color::Blue => assert(wire_color(c)[0] == 123),
            Color::Red => assert(wire_color(c)[0] == 123),
            Color::Green => assert(wire_color(c)[0] == 123),
        }
    }
    assert forall|c: Color| 14 <= (#[trigger] wire_color(c)).len() <= 17 by {
        match c {
            Color::Yellow => assert(wire_color(c).len() == 17),
            Color::Blue => assert(wire_color(c).len() == 15),
            Color::Red => assert(wire_color(c).len() == 14),
            Color::Green => assert(wire_color(c).len() == 16),
        }
    }
}

/// A byte of an embedded piece, read through the whole.
proof fn lemma_starts_with_index(s: Seq<u8>, i: int, p: Seq<u8>, k: int)
    requires
        starts_with_at(s, i, p),
        0 <= k < p.len(),
    ensures
        s[i + k] == p[k],
{
    assert(s.subrange(i, i + p.len())[k] == s[i + k]);
}

/// A whole that carries three pieces back to back is their concatenation.
proof fn lemma_concat3(s: Seq<u8>, a: Seq<u8>, b: Seq<u8>, c: Seq<u8>)
    requires
        s.len() == a.len() + b.len() + c.len(),
        starts_with_at(s, 0, a),
        starts_with_at(s, a.len() as int, b),
        starts_with_at(s, (a.len() + b.len()) as int, c),
    ensures
        s == a + b + c,
{
    assert forall|k: int| 0 <= k < s.len() implies s[k] == (a + b + c)[k] by {
        if k < a.len() {
            lemma_starts_with_index(s, 0, a, k);
        } else if k < a.len() + b.len() {
            lemma_starts_with_index(s, a.len() as int, b, k - a.len());
        } else {
            lemma_starts_with_index(s, (a.len() + b.len()) as int, c, k - a.len() - b.len());
        }
    }
    assert(s =~= a + b + c);
}

/// A whole that carries five pieces back to back is their concatenation.
proof fn lemma_concat5(s: Seq<u8>, a: Seq<u8>, b: Seq<u8>, c: Seq<u8>, d: Seq<u8>, e: Seq<u8>)
    requires
        s.len() == a.len() + b.len() + c.len() + d.len() + e.len(),
        starts_with_at(s, 0, a),
        starts_with_at(s, a.len() as int, b),
        starts_with_at(s, (a.len() + b.len()) as int, c),
        starts_with_at(s, (a.len() + b.len() + c.len()) as int, d),
        starts_with_at(s, (a.len() + b.len() + c.len() + d.len()) as int, e),
    ensures
        s == a + b + c + d + e,
{
    assert forall|k: int| 0 <= k < s.len() implies s[k] == (a + b + c + d + e)[k] by {
        if k < a.len() {
            lemma_starts_with_index(s, 0, a, k);
        } else if k < a.len() + b.len() {
            lemma_starts_with_index(s, a.len() as int, b, k - a.len());
        } else if k < a.len() + b.len() + c.len() {
            lemma_starts_with_index(s, (a.len() + b.len()) as int, c, k - a.len() - b.len());
        } else if k < a.len() + b.len() + c.len() + d.len() {
            lemma_starts_with_index(
                s,
                (a.len() + b.len() + c.len()) as int,
                d,
                k - a.len() - b.len() - c.len(),
            );
        } else {
            lemma_starts_with_index(
                s,
                (a.len() + b.len() + c.len() + d.len()) as int,
                e,
                k - a.len() - b.len() - c.len() - d.len(),
            );
        }
    }
    assert(s =~= a + b + c + d + e);
}

/// The pieces of a concatenation stand in it back to back.
proof fn lemma_concat_parts(s: Seq<u8>, a: Seq<u8>, b: Seq<u8>)
    requires
        s == a + b,
    ensures
        starts_with_at(s, 0, a),
        starts_with_at(s, a.len() as int, b),
{
    assert(s.subrange(0, a.len() as int) =~= a);
    assert(s.subrange(a.len() as int, s.len() as int) =~= b);
}

/// The pieces of a three-part concatenation stand in it back to back.
proof fn lemma_concat3_parts(s: Seq<u8>, a: Seq<u8>, b: Seq<u8>, c: Seq<u8>)
    requires
        s == a + b + c,
    ensures
        starts_with_at(s, 0, a),
        starts_with_at(s, a.len() as int, b),
        starts_with_at(s, (a.len() + b.len()) as int, c),
{
    assert(s.subrange(0, a.len() as int) =~= a);
    assert(s.subrange(a.len() as int, (a.len() + b.len()) as int) =~= b);
    assert(s.subrange((a.len() + b.len()) as int, s.len() as int) =~= c);
}

/// The pieces of a five-part concatenation stand in it back to back.
proof fn lemma_concat5_parts(s: Seq<u8>, a: Seq<u8>, b: Seq<u8>, c: Seq<u8>, d: Seq<u8>, e: Seq<u8>)
    requires
        s == a + b + c + d + e,
    ensures
        starts_with_at(s, 0, a),
        starts_with_at(s, a.len() as int, b),
        starts_with_at(s, (a.len() + b.len()) as int, c),
        starts_with_at(s, (a.len() + b.len() + c.len()) as int, d),
        starts_with_at(s, (a.len() + b.len() + c.len() + d.len()) as int, e),
{
    assert(s.subrange(0, a.len() as int) =~= a);
    assert(s.subrange(a.len() as int, (a.len() + b.len()) as int) =~= b);
    assert(s.subrange((a.len() + b.len()) as int, (a.len() + b.len() + c.len()) as int) =~= c);
    assert(s.subrange(
        (a.len() + b.len() + c.len()) as int,
        (a.len() + b.len() + c.len() + d.len()) as int,
    ) =~= d);
    assert(s.subrange((a.len() + b.len() + c.len() + d.len()) as int, s.len() as int) =~= e);
}

/// Two color objects standing at the same offset are the same color: their
/// name fields start with different letters.
proof fn lemma_color_at_unique(s: Seq<u8>, i: int, c1: Color, c2: Color)
    requires
        starts_with_at(s, i, wire_color(c1)),
        starts_with_at(s, i, wire_color(c2)),
    ensures
        c1 == c2,
{
    lemma_cmd_lit_facts();
    lemma_starts_with_index(s, i, wire_color(c1), 9);
    lemma_starts_with_index(s, i, wire_color(c2), 9);
}

/// A piece that spans the whole is the whole.
proof fn lemma_whole(s: Seq<u8>, p: Seq<u8>)
    requires
        starts_with_at(s, 0, p),
        s.len() == p.len(),
    ensures
        s == p,
{
    assert(s =~= s.subrange(0, p.len() as int));
}

/// Appends a color object.
fn push_color(out: &mut Vec<u8>, c: Color)
    ensures
        final(out)@ == old(out)@ + wire_color(c),
{
    proof {
        lemma_cmd_lit_facts();
    }
    match c {
        Color::Yellow => push_lit(out, "{\"type\":\"Yellow\"}"),
        Color::Blue => push_lit(out, "{\"type\":\"Blue\"}"),
        Color::Red => push_lit(out, "{\"type\":\"Red\"}"),
        Color::Green => push_lit(out, "{\"type\":\"Green\"}"),
    }
}

/// Encodes a command into its canonical frame.
pub fn encode_command(c: &Command) -> (out: Vec<u8>)
    ensures
        out@ == wire_command(*c),
{
    proof {
        lemma_cmd_lit_facts();
    }
    let mut out: Vec<u8> = Vec::new();
    match c {
        Command::CreateGame => {
            push_lit(&mut out, "{\"type\":\"CreateGame\"}");
        }
        Command::AvailableColors { id } => {
            push_lit(&mut out, "{\"type\":\"AvailableColors\",\"id\":");
            push_u32(&mut out, *id);
            push_lit(&mut out, "}");
        }
        Command::JoinGame { id, color } => {
            push_lit(&mut out, "{\"type\":\"JoinGame\",\"id\":");
            push_u32(&mut out, *id);
            push_lit(&mut out, ",\"color\":");
            push_color(&mut out, *color);
            push_lit(&mut out, "}");
        }
        Command::StartGame { id } => {
            push_lit(&mut out, "{\"type\":\"StartGame\",\"id\":");
            push_u32(&mut out, *id);
            push_lit(&mut out, "}");
        }
    }
    proof {
        assert(out@ =~= wire_command(*c));
    }
    out
}

/// Reads one color object at `i`. Succeeds exactly when one stands there.
fn parse_color(s: &Vec<u8>, i: usize) -> (r: Option<(Color, usize)>)
    requires
        i <= s@.len(),
    ensures
        (r matches Some((c, j)) ==> starts_with_at(s@, i as int, wire_color(c)) && j == i
            + wire_color(c).len() && i < j <= s@.len()),
        r is None ==> forall|c: Color| !starts_with_at(s@, i as int, #[trigger] wire_color(c)),
{
    proof {
        lemma_cmd_lit_facts();
    }
    if match_lit(s, i, "{\"type\":\"Yellow\"}") {
        proof {
            assert(s.len() == s@.len());
        }
        return Some((Color::Yellow, i + 17));
    }
    if match_lit(s, i, "{\"type\":\"Blue\"}") {
        proof {
            assert(s.len() == s@.len());
        }
        return Some((Color::Blue, i + 15));
    }
    if match_lit(s, i, "{\"type\":\"Red\"}") {
        proof {
            assert(s.len() == s@.len());
        }
        return Some((Color::Red, i + 14));
    }
    if match_lit(s, i, "{\"type\":\"Green\"}") {
        proof {
            assert(s.len() == s@.len());
        }
        return Some((Color::Green, i + 16));
    }
    None
}

/// Each command frame opens with the literal of its own variant.
proof fn lemma_wire_command_prefix(c: Command)
    ensures
        c is CreateGame ==> starts_with_at(wire_command(c), 0, pre_create()),
        c matches Command::AvailableColors { id } ==> starts_with_at(wire_command(c), 0, pre_avail()),
        c matches Command::JoinGame { id, color } ==> starts_with_at(wire_command(c), 0, pre_join()),
        c matches Command::StartGame { id } ==> starts_with_at(wire_command(c), 0, pre_start()),
{
    match c {
        Command::CreateGame => {
            assert(wire_command(c).subrange(0, pre_create().len() as int) =~= pre_create());
        }
        Command::AvailableColors { id } => {
            lemma_concat3_parts(wire_command(c), pre_avail(), dec_digits(id as int), close_brace());
        }
        Command::JoinGame { id, color } => {
            lemma_concat5_parts(
                wire_command(c),
                pre_join(),
                dec_digits(id as int),
                sep_color(),
                wire_color(color),
                close_brace(),
            );
        }
        Command::StartGame { id } => {
            lemma_concat3_parts(wire_command(c), pre_start(), dec_digits(id as int), close_brace());
        }
    }
}

/// The tenth byte of a command frame tells the variants apart: it is the
/// first letter of the variant name.
proof fn lemma_wire_command_byte9(c: Command)
    ensures
        wire_command(c).len() > 9,
        c is CreateGame ==> wire_command(c)[9] == 67,
        c matches Command::AvailableColors { id } ==> wire_command(c)[9] == 65,
        c matches Command::JoinGame { id, color } ==> wire_command(c)[9] == 74,
        c matches Command::StartGame { id } ==> wire_command(c)[9] == 83,
{
    lemma_cmd_lit_facts();
    lemma_wire_command_prefix(c);
    match c {
        Command::CreateGame => {
            lemma_starts_with_index(wire_command(c), 0, pre_create(), 9);
        }
        Command::AvailableColors { id } => {
            lemma_starts_with_index(wire_command(c), 0, pre_avail(), 9);
        }
        Command::JoinGame { id, color } => {
            lemma_starts_with_index(wire_command(c), 0, pre_join(), 9);
        }
        Command::StartGame { id } => {
            lemma_starts_with_index(wire_command(c), 0, pre_start(), 9);
        }
    }
}

/// Decodes one frame into a command: succeeds on exactly the canonical
/// encodings, returning the encoded command, and reports a `ProtocolError`
/// on every other byte string.
pub fn decode_command(s: &Vec<u8>) -> (r: Result<Command, ProtocolError>)
    ensures
        (r matches Ok(c) ==> s@ == wire_command(c)),
        r is Err ==> forall|c: Command| s@ != #[trigger] wire_command(c),
{
    proof {
        lemma_cmd_lit_facts();
        assert(s.len() == s@.len());
    }
    if match_lit(s, 0, "{\"type\":\"CreateGame\"}") {
        if s.len() == 21 {
            proof {
                lemma_whole(s@, pre_create());
            }
            return Ok(Command::CreateGame);
        }
        proof {
            assert forall|c: Command| s@ != #[trigger] wire_command(c) by {
                if s@ == wire_command(c) {
                    lemma_wire_command_byte9(c);
                    lemma_starts_with_index(s@, 0, pre_create(), 9);
                    assert(c is CreateGame);
                    assert(s@.len() == 21);
                }
            }
        }
        return Err(ProtocolError);
    }
    if match_lit(s, 0, "{\"type\":\"AvailableColors\",\"id\":") {
        let parsed = parse_u32(s, 31);
        proof {
            assert forall|id2: u32| s@ == wire_command(Command::AvailableColors { id: id2 })
                implies {
                let dl = dec_digits(id2 as int).len() as int;
                &&& parsed matches Some(p)
                &&& p.0 == id2
                &&& p.1 == 31 + dl
                &&& starts_with_at(s@, 31 + dl, close_brace())
                &&& s@.len() == 31 + dl + 1
            } by {
                lemma_dec_digits_props(id2 as int);
                lemma_concat3_parts(s@, pre_avail(), dec_digits(id2 as int), close_brace());
                let dl = dec_digits(id2 as int).len() as int;
                lemma_starts_with_index(s@, 31 + dl, close_brace(), 0);
                lemma_run_end_of(s@, 31, dec_digits(id2 as int));
                assert(s@.subrange(31, run_end(s@, 31)) == dec_digits(id2 as int));
                assert(dec_val(s@.subrange(31, run_end(s@, 31))) == id2);
            }
        }
        let mut ok: Option<Command> = None;
        match parsed {
            Some((id, j)) => {
                if match_lit(s, j, "}") && j + 1 == s.len() {
                    proof {
                        lemma_concat3(s@, pre_avail(), dec_digits(id as int), close_brace());
                    }
                    ok = Some(Command::AvailableColors { id });
                }
            }
            None => {}
        }
        match ok {
            Some(c) => {
                return Ok(c);
            }
            None => {
                proof {
                    assert forall|c: Command| s@ != #[trigger] wire_command(c) by {
                        if s@ == wire_command(c) {
                            lemma_wire_command_byte9(c);
                            lemma_starts_with_index(s@, 0, pre_avail(), 9);
                            assert(c matches Command::AvailableColors { id: _ });
                        }
                    }
                }
                return Err(ProtocolError);
            }
        }
    }
    if match_lit(s, 0, "{\"type\":\"JoinGame\",\"id\":") {
        let parsed = parse_u32(s, 24);
        proof {
            assert forall|id2: u32, color2: Color|
                s@ == wire_command(Command::JoinGame { id: id2, color: color2 }) implies {
                let dl = dec_digits(id2 as int).len() as int;
                let cl = wire_color(color2).len() as int;
                &&& parsed matches Some(p)
                &&& p.0 == id2
                &&& p.1 == 24 + dl
                &&& starts_with_at(s@, 24 + dl, sep_color())
                &&& starts_with_at(s@, 24 + dl + 9, wire_color(color2))
                &&& starts_with_at(s@, 24 + dl + 9 + cl, close_brace())
                &&& s@.len() == 24 + dl + 9 + cl + 1
            } by {
                lemma_cmd_lit_facts();
                lemma_dec_digits_props(id2 as int);
                lemma_concat5_parts(
                    s@,
                    pre_join(),
                    dec_digits(id2 as int),
                    sep_color(),
                    wire_color(color2),
                    close_brace(),
                );
                let dl = dec_digits(id2 as int).len() as int;
                lemma_starts_with_index(s@, 24 + dl, sep_color(), 0);
                lemma_run_end_of(s@, 24, dec_digits(id2 as int));
                assert(s@.subrange(24, run_end(s@, 24)) == dec_digits(id2 as int));
                assert(dec_val(s@.subrange(24, run_end(s@, 24))) == id2);
            }
        }
        let mut ok: Option<Command> = None;
        let mut pc: Option<(Color, usize)> = None;
        let ghost mut pc_at: int = 0;
        match parsed {
            Some((id, j)) => {
                if match_lit(s, j, ",\"color\":") {
                    proof {
                        assert(s.len() == s@.len());
                    }
                    pc = parse_color(s, j + 9);
                    proof {
                        pc_at = j + 9;
                    }
                    match pc {
                        Some((color, j3)) => {
                            if match_lit(s, j3, "}") && j3 + 1 == s.len() {
                                proof {
                                    lemma_run_end(s@, 24);
                                    assert(s@.subrange(24, j as int) == dec_digits(id as int));
                                    assert(dec_digits(id as int).len() == j - 24);
                                    assert(j3 == j + 9 + wire_color(color).len());
                                    assert(s@.len() == j3 + 1);
                                    lemma_concat5(
                                        s@,
                                        pre_join(),
                                        dec_digits(id as int),
                                        sep_color(),
                                        wire_color(color),
                                        close_brace(),
                                    );
                                }
                                ok = Some(Command::JoinGame { id, color });
                            }
                        }
                        None => {}
                    }
                }
            }
            None => {}
        }
        match ok {
            Some(c) => {
                return Ok(c);
            }
            None => {
                proof {
                    assert forall|c: Command| s@ != #[trigger] wire_command(c) by {
                        if s@ == wire_command(c) {
                            lemma_wire_command_byte9(c);
                            lemma_starts_with_index(s@, 0, pre_join(), 9);
                            assert(c matches Command::JoinGame { id: _, color: _ });
                            match c {
                                Command::JoinGame { id: id2, color: color2 } => {
                                    match pc {
                                        Some((c0, j30)) => {
                                            lemma_color_at_unique(s@, pc_at, c0, color2);
                                        }
                                        None => {}
                                    }
                                }
                                _ => {}
                            }
                        }
                    }
                }
                return Err(ProtocolError);
            }
        }
    }
    if match_lit(s, 0, "{\"type\":\"StartGame\",\"id\":") {
        let parsed = parse_u32(s, 25);
        proof {
            assert forall|id2: u32| s@ == wire_command(Command::StartGame { id: id2 }) implies {
                let dl = dec_digits(id2 as int).len() as int;
                &&& parsed matches Some(p)
                &&& p.0 == id2
                &&& p.1 == 25 + dl
                &&& starts_with_at(s@, 25 + dl, close_brace())
                &&& s@.len() == 25 + dl + 1
            } by {
                lemma_dec_digits_props(id2 as int);
                lemma_concat3_parts(s@, pre_start(), dec_digits(id2 as int), close_brace());
                let dl = dec_digits(id2 as int).len() as int;
                lemma_starts_with_index(s@, 25 + dl, close_brace(), 0);
                lemma_run_end_of(s@, 25, dec_digits(id2 as int));
                assert(s@.subrange(25, run_end(s@, 25)) == dec_digits(id2 as int));
                assert(dec_val(s@.subrange(25, run_end(s@, 25))) == id2);
            }
        }
        let mut ok: Option<Command> = None;
        match parsed {
            Some((id, j)) => {
                if match_lit(s, j, "}") && j + 1 == s.len() {
                    proof {
                        lemma_concat3(s@, pre_start(), dec_digits(id as int), close_brace());
                    }
                    ok = Some(Command::StartGame { id });
                }
            }
            None => {}
        }
        match ok {
            Some(c) => {
                return Ok(c);
            }
            None => {
                proof {
                    assert forall|c: Command| s@ != #[trigger] wire_command(c) by {
                        if s@ == wire_command(c) {
                            lemma_wire_command_byte9(c);
                            lemma_starts_with_index(s@, 0, pre_start(), 9);
                            assert(c matches Command::StartGame { id: _ });
                        }
                    }
                }
                return Err(ProtocolError);
            }
        }
    }
    proof {
        assert forall|c: Command| s@ != #[trigger] wire_command(c) by {
            if s@ == wire_command(c) {
                lemma_wire_command_prefix(c);
            }
        }
    }
    Err(ProtocolError)
}

/// Opens an `AvailableColors` response, up to its color list.
pub open spec fn rpre_avail() -> Seq<u8> {
    lit_bytes("{\"type\":\"AvailableColors\",\"colors\":[")
}

/// Opens a `PickedColor` response, up to its color object.
pub open spec fn rpre_picked() -> Seq<u8> {
    lit_bytes("{\"type\":\"PickedColor\",\"color\":")
}

/// Opens a `CreateGameResponse`, up to its id digits.
pub open spec fn rpre_created() -> Seq<u8> {
    lit_bytes("{\"type\":\"CreateGameResponse\",\"game_id\":")
}

/// Opens a `FailureMessage`, up to the text itself.
pub open spec fn rpre_failure() -> Seq<u8> {
    lit_bytes("{\"type\":\"FailureMessage\",\"message\":\"")
}

/// Closes a color list and its frame.
pub open spec fn close_list() -> Seq<u8> {
    lit_bytes("]}")
}

/// Closes a message string and its frame.
pub open spec fn close_quote() -> Seq<u8> {
    lit_bytes("\"}")
}

/// Separates two colors of a list.
pub open spec fn comma() -> Seq<u8> {
    lit_bytes(",")
}

/// A list of colors, comma-separated.
pub open spec fn wire_colors(cs: Seq<Color>) -> Seq<u8>
    decreases cs.len(),
{
    if cs.len() == 0 {
        Seq::empty()
    } else if cs.len() == 1 {
        wire_color(cs[0])
    } else {
        wire_colors(cs.drop_last()) + comma() + wire_color(cs.last())
    }
}

/// Text that may stand inside a message string as it is: printable ASCII
/// with no quote and no backslash, so that no escaping is ever needed.
pub open spec fn json_safe(s: Seq<char>) -> bool {
    forall|i: int|
        0 <= i < s.len() ==> 32 <= (#[trigger] s[i]) as int <= 126 && s[i] as int != 34 && s[i]
            as int != 92
}

/// The bytes of a message text: one byte per character.
pub open spec fn msg_bytes(s: Seq<char>) -> Seq<u8> {
    Seq::new(s.len(), |i: int| s[i] as u8)
}

/// The canonical frame of a response.
pub open spec fn wire_response(r: Response) -> Seq<u8> {
    match r {
        Response::AvailableColors { colors } => rpre_avail() + wire_colors(colors@) + close_list(),
        Response::PickedColor { color } => rpre_picked() + wire_color(color) + close_brace(),
        Response::CreateGameResponse { game_id } => rpre_created() + dec_digits(game_id as int)
            + close_brace(),
        Response::FailureMessage { message } => rpre_failure() + msg_bytes(message@)
            + close_quote(),
    }
}

/// The frame of a failure answer that carries `text`.
pub open spec fn failure_wire_of(text: Seq<char>) -> Seq<u8> {
    rpre_failure() + msg_bytes(text) + close_quote()
}

/// A response the wire can carry: a failure text must be safe to embed.
pub open spec fn response_wf(r: Response) -> bool {
    r matches Response::FailureMessage { message } ==> json_safe(message@)
}

/// Concrete shape of the response literals: their lengths, the bytes that
/// tell them apart, and that they are ASCII.
proof fn lemma_resp_lit_facts()
    ensures
        vstd::string::is_ascii("{\"type\":\"AvailableColors\",\"colors\":["),
        vstd::string::is_ascii("{\"type\":\"PickedColor\",\"color\":"),
        vstd::string::is_ascii("{\"type\":\"CreateGameResponse\",\"game_id\":"),
        vstd::string::is_ascii("{\"type\":\"FailureMessage\",\"message\":\""),
        vstd::string::is_ascii("]}"),
        vstd::string::is_ascii("\"}"),
        vstd::string::is_ascii(","),
        rpre_avail().len() == 36,
        rpre_picked().len() == 30,
        rpre_created().len() == 39,
        rpre_failure().len() == 36,
        close_list().len() == 2,
        close_quote().len() == 2,
        comma().len() == 1,
        rpre_avail()[9] == 65,
        rpre_picked()[9] == 80,
        rpre_created()[9] == 67,
        rpre_failure()[9] == 70,
        close_list()[0] == 93,
        close_quote()[0] == 34,
        comma()[0] == 44,
{
    reveal_strlit("{\"type\":\"AvailableColors\",\"colors\":[");
    reveal_strlit("{\"type\":\"PickedColor\",\"color\":");
    reveal_strlit("{\"type\":\"CreateGameResponse\",\"game_id\":");
    reveal_strlit("{\"type\":\"FailureMessage\",\"message\":\"");
    reveal_strlit("]}");
    reveal_strlit("\"}");
    reveal_strlit(",");
}

/// A nonempty color list opens with its first color; the rest follows after
/// a comma, or nothing when it was the only one.
proof fn lemma_wire_colors_head(cs: Seq<Color>)
    requires
        cs.len() >= 1,
    ensures
        cs.len() == 1 ==> wire_colors(cs) == wire_color(cs[0]),
        cs.len() > 1 ==> wire_colors(cs) == wire_color(cs[0]) + comma() + wire_colors(
            cs.drop_first(),
        ),
    decreases cs.len(),
{
    if cs.len() > 1 {
        let front = cs.drop_last();
        lemma_wire_colors_head(front);
        assert(front[0] == cs[0]);
        let rest = cs.drop_first();
        assert(rest.last() == cs.last());
        assert(rest.drop_last() =~= front.drop_first());
        if cs.len() == 2 {
            assert(wire_colors(front) == wire_color(cs[0]));
            assert(wire_colors(rest) == wire_color(rest[0]));
            assert(rest[0] == cs.last());
            assert(wire_colors(cs) == wire_colors(front) + comma() + wire_color(cs.last()));
            assert(wire_colors(cs) =~= wire_color(cs[0]) + comma() + wire_colors(rest));
        } else {
            assert(wire_colors(front) == wire_color(front[0]) + comma() + wire_colors(
                front.drop_first(),
            ));
            assert(wire_colors(cs) == wire_colors(front) + comma() + wire_color(cs.last()));
            assert(wire_colors(rest) == wire_colors(rest.drop_last()) + comma() + wire_color(
                rest.last(),
            ));
            assert(wire_colors(cs) =~= wire_color(cs[0]) + comma() + wire_colors(rest));
        }
    }
}

/// Appends a message text.
fn push_msg(out: &mut Vec<u8>, m: &String)
    requires
        json_safe(m@),
    ensures
        final(out)@ == old(out)@ + msg_bytes(m@),
{
    let ms = m.as_str();
    proof {
        assert(vstd::string::is_ascii(ms));
        vstd::string::is_ascii_spec_bytes(ms);
        assert(ms.spec_bytes() =~= msg_bytes(m@));
    }
    let b = ms.as_bytes();
    out.extend_from_slice(b);
}

/// Encodes a response into its canonical frame. A failure text must be
/// wire-safe; everything the library itself produces is.
pub fn encode_response(r: &Response) -> (out: Vec<u8>)
    requires
        response_wf(*r),
    ensures
        out@ == wire_response(*r),
{
    proof {
        lemma_resp_lit_facts();
        lemma_cmd_lit_facts();
    }
    let mut out: Vec<u8> = Vec::new();
    match r {
        Response::AvailableColors { colors } => {
            push_lit(&mut out, "{\"type\":\"AvailableColors\",\"colors\":[");
            let mut i: usize = 0;
            while i < colors.len()
                invariant
                    0 <= i <= colors@.len(),
                    out@ == rpre_avail() + wire_colors(colors@.subrange(0, i as int)),
                decreases colors@.len() - i,
            {
                proof {
                    lemma_resp_lit_facts();
                }
                if i > 0 {
                    push_lit(&mut out, ",");
                }
                push_color(&mut out, colors[i]);
                proof {
                    let part = colors@.subrange(0, i + 1);
                    assert(part.drop_last() =~= colors@.subrange(0, i as int));
                    assert(part.last() == colors@[i as int]);
                    if i == 0 {
                        assert(wire_colors(part) == wire_color(part[0]));
                        assert(out@ =~= rpre_avail() + wire_colors(part));
                    } else {
                        assert(wire_colors(part) == wire_colors(part.drop_last()) + comma()
                            + wire_color(part.last()));
                        assert(out@ =~= rpre_avail() + wire_colors(part));
                    }
                }
                i += 1;
            }
            proof {
                assert(colors@.subrange(0, colors@.len() as int) =~= colors@);
            }
            push_lit(&mut out, "]}");
        }
        Response::PickedColor { color } => {
            push_lit(&mut out, "{\"type\":\"PickedColor\",\"color\":");
            push_color(&mut out, *color);
            push_lit(&mut out, "}");
        }
        Response::CreateGameResponse { game_id } => {
            push_lit(&mut out, "{\"type\":\"CreateGameResponse\",\"game_id\":");
            push_u32(&mut out, *game_id);
            push_lit(&mut out, "}");
        }
        Response::FailureMessage { message } => {
            push_lit(&mut out, "{\"type\":\"FailureMessage\",\"message\":\"");
            push_msg(&mut out, message);
            push_lit(&mut out, "\"}");
        }
    }
    proof {
        assert(out@ =~= wire_response(*r));
    }
    out
}

/// Seeing a piece inside the suffix of `s` from `i` is seeing it in `s`.
proof fn lemma_suffix_starts(s: Seq<u8>, i: int, k: int, p: Seq<u8>)
    requires
        0 <= i <= s.len(),
        0 <= k,
    ensures
        starts_with_at(s.subrange(i, s.len() as int), k, p) == starts_with_at(s, i + k, p),
{
    let t = s.subrange(i, s.len() as int);
    if i + k + p.len() <= s.len() {
        assert(t.subrange(k, k + p.len()) =~= s.subrange(i + k, i + k + p.len()));
    }
}

/// Peels the first color off an encoded color list: the suffix of `s` from
/// `i` opens with that color's object, and what follows is either the list
/// close or a comma and the encoded rest.
proof fn lemma_list_step(s: Seq<u8>, i: int, cs: Seq<Color>)
    requires
        0 <= i <= s.len(),
        s.subrange(i, s.len() as int) == wire_colors(cs) + close_list(),
        cs.len() >= 1,
    ensures
        starts_with_at(s, i, wire_color(cs[0])),
        cs.len() == 1 ==> starts_with_at(s, i + wire_color(cs[0]).len(), close_list()) && s.len()
            == i + wire_color(cs[0]).len() + 2,
        cs.len() > 1 ==> starts_with_at(s, i + wire_color(cs[0]).len(), comma()) && s.subrange(
            i + wire_color(cs[0]).len() + 1,
            s.len() as int,
        ) == wire_colors(cs.drop_first()) + close_list(),
{
    lemma_resp_lit_facts();
    lemma_cmd_lit_facts();
    lemma_wire_colors_head(cs);
    let t = s.subrange(i, s.len() as int);
    let w0 = wire_color(cs[0]);
    if cs.len() == 1 {
        assert(t == w0 + close_list());
        assert(t.subrange(0, w0.len() as int) =~= w0);
        assert(t.subrange(w0.len() as int, t.len() as int) =~= close_list());
        lemma_suffix_starts(s, i, 0, w0);
        lemma_suffix_starts(s, i, w0.len() as int, close_list());
    } else {
        let rest = cs.drop_first();
        assert(t =~= w0 + comma() + (wire_colors(rest) + close_list()));
        assert(t.subrange(0, w0.len() as int) =~= w0);
        assert(t.subrange(w0.len() as int, (w0.len() + 1) as int) =~= comma());
        assert(t.subrange((w0.len() + 1) as int, t.len() as int) =~= wire_colors(rest) + close_list());
        lemma_suffix_starts(s, i, 0, w0);
        lemma_suffix_starts(s, i, w0.len() as int, comma());
        assert(s.subrange(i + w0.len() + 1, s.len() as int) =~= t.subrange(
            (w0.len() + 1) as int,
            t.len() as int,
        ));
    }
}

/// Assembles an encoded list from its first color and the encoded rest.
proof fn lemma_list_build(s: Seq<u8>, i: int, c: Color, more: Seq<Color>)
    requires
        0 <= i <= s.len(),
        starts_with_at(s, i, wire_color(c)),
        starts_with_at(s, i + wire_color(c).len(), comma()),
        s.subrange(i + wire_color(c).len() + 1, s.len() as int) == wire_colors(more)
            + close_list(),
        more.len() >= 1,
    ensures
        s.subrange(i, s.len() as int) == wire_colors(seq![c] + more) + close_list(),
{
    lemma_resp_lit_facts();
    let cs = seq![c] + more;
    assert(cs[0] == c);
    assert(cs.drop_first() =~= more);
    lemma_wire_colors_head(cs);
    let w0 = wire_color(c);
    let t = s.subrange(i, s.len() as int);
    assert forall|k: int| 0 <= k < t.len() implies t[k] == (w0 + comma() + (wire_colors(more)
        + close_list()))[k] by {
        if k < w0.len() {
            lemma_starts_with_index(s, i, w0, k);
        } else if k < w0.len() + 1 {
            lemma_starts_with_index(s, i + w0.len(), comma(), k - w0.len());
        } else {
            assert(t[k] == s.subrange(i + w0.len() + 1, s.len() as int)[k - w0.len() - 1]);
        }
    }
    assert(t =~= w0 + comma() + (wire_colors(more) + close_list()));
    assert(t =~= wire_colors(cs) + close_list());
}

/// Assembles an encoded one-color list.
proof fn lemma_list_build1(s: Seq<u8>, i: int, c: Color)
    requires
        0 <= i <= s.len(),
        starts_with_at(s, i, wire_color(c)),
        starts_with_at(s, i + wire_color(c).len(), close_list()),
        s.len() == i + wire_color(c).len() + 2,
    ensures
        s.subrange(i, s.len() as int) == wire_colors(seq![c]) + close_list(),
{
    lemma_resp_lit_facts();
    let w0 = wire_color(c);
    let t = s.subrange(i, s.len() as int);
    let one = seq![c];
    assert(one[0] == c);
    assert(wire_colors(one) == w0);
    assert forall|k: int| 0 <= k < t.len() implies t[k] == (w0 + close_list())[k] by {
        if k < w0.len() {
            lemma_starts_with_index(s, i, w0, k);
        } else {
            lemma_starts_with_index(s, i + w0.len(), close_list(), k - w0.len());
        }
    }
    assert(t =~= w0 + close_list());
}

/// Reads an encoded color list with its closing bracket, to the very end of
/// the frame. Succeeds exactly when the suffix from `i` is such a list.
fn parse_color_list(s: &Vec<u8>, i: usize) -> (r: Option<Vec<Color>>)
    requires
        i <= s@.len(),
    ensures
        (r matches Some(colors) ==> s@.subrange(i as int, s@.len() as int) == wire_colors(colors@)
            + close_list()),
        r is None ==> forall|cs: Seq<Color>|
            s@.subrange(i as int, s@.len() as int) != #[trigger] wire_colors(cs) + close_list(),
    decreases s@.len() - i,
{
    proof {
        lemma_resp_lit_facts();
        lemma_cmd_lit_facts();
        assert(s.len() == s@.len());
    }
    let ghost t = s@.subrange(i as int, s@.len() as int);
    if match_lit(s, i, "]}") {
        if i + 2 == s.len() {
            proof {
                assert(t =~= close_list());
                assert(wire_colors(Seq::<Color>::empty()) + close_list() =~= close_list());
            }
            let empty: Vec<Color> = Vec::new();
            proof {
                assert(empty@ =~= Seq::<Color>::empty());
            }
            return Some(empty);
        }
        proof {
            assert forall|cs: Seq<Color>| t != #[trigger] wire_colors(cs) + close_list() by {
                if t == wire_colors(cs) + close_list() {
                    if cs.len() == 0 {
                        assert(wire_colors(cs) + close_list() =~= close_list());
                        assert(t.len() == 2);
                    } else {
                        lemma_list_step(s@, i as int, cs);
                        lemma_starts_with_index(s@, i as int, wire_color(cs[0]), 0);
                        lemma_starts_with_index(s@, i as int, close_list(), 0);
                    }
                }
            }
        }
        return None;
    }
    match parse_color(s, i) {
        None => {
            proof {
                assert forall|cs: Seq<Color>| t != #[trigger] wire_colors(cs) + close_list() by {
                    if t == wire_colors(cs) + close_list() {
                        if cs.len() == 0 {
                            assert(wire_colors(cs) + close_list() =~= close_list());
                            assert(t.len() == 2);
                            assert(t.subrange(0, 2) =~= t);
                            lemma_suffix_starts(s@, i as int, 0, close_list());
                        } else {
                            lemma_list_step(s@, i as int, cs);
                        }
                    }
                }
            }
            None
        }
        Some((c, j)) => {
            if match_lit(s, j, ",") {
                proof {
                    assert(s.len() == s@.len());
                }
                let rest = parse_color_list(s, j + 1);
                match rest {
                    Some(mut more) => {
                        if more.len() > 0 {
                            proof {
                                lemma_list_build(s@, i as int, c, more@);
                            }
                            let ghost old_more = more@;
                            more.insert(0, c);
                            proof {
                                assert(more@ =~= seq![c] + old_more);
                            }
                            return Some(more);
                        }
                        proof {
                            assert forall|cs: Seq<Color>| t != #[trigger] wire_colors(cs)
                                + close_list() by {
                                if t == wire_colors(cs) + close_list() {
                                    if cs.len() == 0 {
                                        assert(wire_colors(cs) + close_list() =~= close_list());
                                        assert(t.len() == 2);
                                        assert(t[0] == s@[i as int]);
                                        lemma_starts_with_index(s@, i as int, wire_color(c), 0);
                                        lemma_starts_with_index(s@, i as int, close_list(), 0);
                                    } else {
                                        lemma_list_step(s@, i as int, cs);
                                        lemma_color_at_unique(s@, i as int, c, cs[0]);
                                        if cs.len() == 1 {
                                            lemma_starts_with_index(
                                                s@,
                                                i + wire_color(c).len(),
                                                close_list(),
                                                0,
                                            );
                                            lemma_starts_with_index(
                                                s@,
                                                i + wire_color(c).len(),
                                                comma(),
                                                0,
                                            );
                                        } else {
                                            assert(s@.subrange(
                                                i + wire_color(c).len() + 1,
                                                s@.len() as int,
                                            ) == wire_colors(cs.drop_first()) + close_list());
                                            lemma_wire_colors_head(cs.drop_first());
                                            lemma_list_step(
                                                s@,
                                                i + wire_color(c).len() + 1,
                                                cs.drop_first(),
                                            );
                                        }
                                    }
                                }
                            }
                        }
                        return None;
                    }
                    None => {
                        proof {
                            assert forall|cs: Seq<Color>| t != #[trigger] wire_colors(cs)
                                + close_list() by {
                                if t == wire_colors(cs) + close_list() {
                                    if cs.len() == 0 {
                                        assert(wire_colors(cs) + close_list() =~= close_list());
                                        assert(t.len() == 2);
                                        assert(t[0] == s@[i as int]);
                                        lemma_starts_with_index(s@, i as int, wire_color(c), 0);
                                        lemma_starts_with_index(s@, i as int, close_list(), 0);
                                    } else {
                                        lemma_list_step(s@, i as int, cs);
                                        lemma_color_at_unique(s@, i as int, c, cs[0]);
                                        if cs.len() == 1 {
                                            lemma_starts_with_index(
                                                s@,
                                                i + wire_color(c).len(),
                                                close_list(),
                                                0,
                                            );
                                            lemma_starts_with_index(
                                                s@,
                                                i + wire_color(c).len(),
                                                comma(),
                                                0,
                                            );
                                        }
                                    }
                                }
                            }
                        }
                        return None;
                    }
                }
            }
            if match_lit(s, j, "]}") {
                if j + 2 == s.len() {
                    proof {
                        lemma_list_build1(s@, i as int, c);
                    }
                    let mut one: Vec<Color> = Vec::new();
                    one.push(c);
                    proof {
                        assert(one@ =~= seq![c]);
                    }
                    return Some(one);
                }
                proof {
                    assert forall|cs: Seq<Color>| t != #[trigger] wire_colors(cs) + close_list() by {
                        if t == wire_colors(cs) + close_list() {
                            if cs.len() == 0 {
                                assert(wire_colors(cs) + close_list() =~= close_list());
                                assert(t.len() == 2);
                                assert(t[0] == s@[i as int]);
                                lemma_starts_with_index(s@, i as int, wire_color(c), 0);
                                lemma_starts_with_index(s@, i as int, close_list(), 0);
                            } else {
                                lemma_list_step(s@, i as int, cs);
                                lemma_color_at_unique(s@, i as int, c, cs[0]);
                                if cs.len() > 1 {
                                    lemma_starts_with_index(
                                        s@,
                                        i + wire_color(c).len(),
                                        comma(),
                                        0,
                                    );
                                    lemma_starts_with_index(
                                        s@,
                                        i + wire_color(c).len(),
                                        close_list(),
                                        0,
                                    );
                                }
                            }
                        }
                    }
                }
                return None;
            }
            proof {
                assert forall|cs: Seq<Color>| t != #[trigger] wire_colors(cs) + close_list() by {
                    if t == wire_colors(cs) + close_list() {
                        if cs.len() == 0 {
                            assert(wire_colors(cs) + close_list() =~= close_list());
                            assert(t.len() == 2);
                            assert(t[0] == s@[i as int]);
                            lemma_starts_with_index(s@, i as int, wire_color(c), 0);
                            lemma_starts_with_index(s@, i as int, close_list(), 0);
                        } else {
                            lemma_list_step(s@, i as int, cs);
                            lemma_color_at_unique(s@, i as int, c, cs[0]);
                        }
                    }
                }
            }
            None
        }
    }
}

/// Relies on `String::push`: it appends exactly the one character.
#[verifier::external_body]
fn push_char(s: &mut String, c: char)
    ensures
        final(s)@ == old(s)@.push(c),
{
    s.push(c);
}

/// Each response frame opens with the literal of its own variant.
proof fn lemma_wire_response_prefix(r: Response)
    ensures
        r matches Response::AvailableColors { colors } ==> starts_with_at(
            wire_response(r),
            0,
            rpre_avail(),
        ),
        r matches Response::PickedColor { color } ==> starts_with_at(
            wire_response(r),
            0,
            rpre_picked(),
        ),
        r matches Response::CreateGameResponse { game_id } ==> starts_with_at(
            wire_response(r),
            0,
            rpre_created(),
        ),
        r matches Response::FailureMessage { message } ==> starts_with_at(
            wire_response(r),
            0,
            rpre_failure(),
        ),
{
    match r {
        Response::AvailableColors { colors } => {
            lemma_concat3_parts(wire_response(r), rpre_avail(), wire_colors(colors@), close_list());
        }
        Response::PickedColor { color } => {
            lemma_concat3_parts(wire_response(r), rpre_picked(), wire_color(color), close_brace());
        }
        Response::CreateGameResponse { game_id } => {
            lemma_concat3_parts(
                wire_response(r),
                rpre_created(),
                dec_digits(game_id as int),
                close_brace(),
            );
        }
        Response::FailureMessage { message } => {
            lemma_concat3_parts(
                wire_response(r),
                rpre_failure(),
                msg_bytes(message@),
                close_quote(),
            );
        }
    }
}

/// The tenth byte of a response frame tells the variants apart: it is the
/// first letter of the variant name.
proof fn lemma_wire_response_byte9(r: Response)
    ensures
        wire_response(r).len() > 9,
        r matches Response::AvailableColors { colors } ==> wire_response(r)[9] == 65,
        r matches Response::PickedColor { color } ==> wire_response(r)[9] == 80,
        r matches Response::CreateGameResponse { game_id } ==> wire_response(r)[9] == 67,
        r matches Response::FailureMessage { message } ==> wire_response(r)[9] == 70,
{
    lemma_resp_lit_facts();
    lemma_wire_response_prefix(r);
    match r {
        Response::AvailableColors { colors } => {
            lemma_starts_with_index(wire_response(r), 0, rpre_avail(), 9);
        }
        Response::PickedColor { color } => {
            lemma_starts_with_index(wire_response(r), 0, rpre_picked(), 9);
        }
        Response::CreateGameResponse { game_id } => {
            lemma_starts_with_index(wire_response(r), 0, rpre_created(), 9);
        }
        Response::FailureMessage { message } => {
            lemma_starts_with_index(wire_response(r), 0, rpre_failure(), 9);
        }
    }
}

/// Decodes one frame into a response: succeeds on exactly the canonical
/// encodings of wire-safe responses, returning the encoded response, and
/// reports a `ProtocolError` on every other byte string.
pub fn decode_response(s: &Vec<u8>) -> (r: Result<Response, ProtocolError>)
    ensures
        (r matches Ok(resp) ==> s@ == wire_response(resp) && response_wf(resp)),
        r is Err ==> forall|resp: Response|
            response_wf(resp) ==> s@ != #[trigger] wire_response(resp),
{
    proof {
        lemma_resp_lit_facts();
        lemma_cmd_lit_facts();
        assert(s.len() == s@.len());
    }
    if match_lit(s, 0, "{\"type\":\"AvailableColors\",\"colors\":[") {
        match parse_color_list(s, 36) {
            Some(colors) => {
                proof {
                    let body = wire_colors(colors@) + close_list();
                    assert forall|k: int| 0 <= k < s@.len() implies s@[k] == (rpre_avail()
                        + body)[k] by {
                        if k < 36 {
                            lemma_starts_with_index(s@, 0, rpre_avail(), k);
                        } else {
                            assert(s@[k] == s@.subrange(36, s@.len() as int)[k - 36]);
                        }
                    }
                    assert(s@ =~= rpre_avail() + body);
                    assert(s@ =~= rpre_avail() + wire_colors(colors@) + close_list());
                }
                return Ok(Response::AvailableColors { colors });
            }
            None => {
                proof {
                    assert forall|resp: Response| response_wf(resp) implies s@ != #[trigger]
                        wire_response(resp) by {
                        if s@ == wire_response(resp) {
                            lemma_wire_response_byte9(resp);
                            lemma_starts_with_index(s@, 0, rpre_avail(), 9);
                            match resp {
                                Response::AvailableColors { colors: colors2 } => {
                                    lemma_concat3_parts(
                                        s@,
                                        rpre_avail(),
                                        wire_colors(colors2@),
                                        close_list(),
                                    );
                                    let wl = wire_colors(colors2@).len() as int;
                                    assert(s@.subrange(36, s@.len() as int) =~= wire_colors(
                                        colors2@,
                                    ) + close_list()) by {
                                        assert forall|k: int| 0 <= k < s@.len() - 36 implies
                                            s@.subrange(36, s@.len() as int)[k] == (wire_colors(
                                            colors2@,
                                        ) + close_list())[k] by {
                                            if k < wl {
                                                lemma_starts_with_index(
                                                    s@,
                                                    36,
                                                    wire_colors(colors2@),
                                                    k,
                                                );
                                            } else {
                                                lemma_starts_with_index(
                                                    s@,
                                                    36 + wl,
                                                    close_list(),
                                                    k - wl,
                                                );
                                            }
                                        }
                                    }
                                }
                                _ => {}
                            }
                        }
                    }
                }
                return Err(ProtocolError);
            }
        }
    }
    if match_lit(s, 0, "{\"type\":\"PickedColor\",\"color\":") {
        let mut ok: Option<Response> = None;
        let pc = parse_color(s, 30);
        match pc {
            Some((color, j)) => {
                if match_lit(s, j, "}") && j + 1 == s.len() {
                    proof {
                        lemma_concat3(s@, rpre_picked(), wire_color(color), close_brace());
                    }
                    ok = Some(Response::PickedColor { color });
                }
            }
            None => {}
        }
        match ok {
            Some(resp) => {
                return Ok(resp);
            }
            None => {
                proof {
                    assert forall|resp: Response| response_wf(resp) implies s@ != #[trigger]
                        wire_response(resp) by {
                        if s@ == wire_response(resp) {
                            lemma_wire_response_byte9(resp);
                            lemma_starts_with_index(s@, 0, rpre_picked(), 9);
                            match resp {
                                Response::PickedColor { color: color2 } => {
                                    lemma_concat3_parts(
                                        s@,
                                        rpre_picked(),
                                        wire_color(color2),
                                        close_brace(),
                                    );
                                    match pc {
                                        Some((c0, j0)) => {
                                            lemma_color_at_unique(s@, 30, c0, color2);
                                            lemma_starts_with_index(
                                                s@,
                                                (30 + wire_color(color2).len()) as int,
                                                close_brace(),
                                                0,
                                            );
                                        }
                                        None => {}
                                    }
                                }
                                _ => {}
                            }
                        }
                    }
                }
                return Err(ProtocolError);
            }
        }
    }
    if match_lit(s, 0, "{\"type\":\"CreateGameResponse\",\"game_id\":") {
        let parsed = parse_u32(s, 39);
        proof {
            assert forall|id2: u32|
                s@ == wire_response(Response::CreateGameResponse { game_id: id2 }) implies {
                let dl = dec_digits(id2 as int).len() as int;
                &&& parsed matches Some(p)
                &&& p.0 == id2
                &&& p.1 == 39 + dl
                &&& starts_with_at(s@, 39 + dl, close_brace())
                &&& s@.len() == 39 + dl + 1
            } by {
                lemma_dec_digits_props(id2 as int);
                lemma_concat3_parts(s@, rpre_created(), dec_digits(id2 as int), close_brace());
                let dl = dec_digits(id2 as int).len() as int;
                lemma_starts_with_index(s@, 39 + dl, close_brace(), 0);
                lemma_run_end_of(s@, 39, dec_digits(id2 as int));
                assert(s@.subrange(39, run_end(s@, 39)) == dec_digits(id2 as int));
                assert(dec_val(s@.subrange(39, run_end(s@, 39))) == id2);
            }
        }
        let mut ok: Option<Response> = None;
        match parsed {
            Some((game_id, j)) => {
                if match_lit(s, j, "}") && j + 1 == s.len() {
                    proof {
                        lemma_concat3(s@, rpre_created(), dec_digits(game_id as int), close_brace());
                    }
                    ok = Some(Response::CreateGameResponse { game_id });
                }
            }
            None => {}
        }
        match ok {
            Some(resp) => {
                return Ok(resp);
            }
            None => {
                proof {
                    assert forall|resp: Response| response_wf(resp) implies s@ != #[trigger]
                        wire_response(resp) by {
                        if s@ == wire_response(resp) {
                            lemma_wire_response_byte9(resp);
                            lemma_starts_with_index(s@, 0, rpre_created(), 9);
                        }
                    }
                }
                return Err(ProtocolError);
            }
        }
    }
    if match_lit(s, 0, "{\"type\":\"FailureMessage\",\"message\":\"") {
        let mut j: usize = 36;
        let mut msg = String::new();
        while j < s.len() && s[j] != 34 && s[j] >= 32 && s[j] <= 126 && s[j] != 92
            invariant
                36 <= j <= s@.len(),
                json_safe(msg@),
                msg@.len() == j - 36,
                forall|k: int| 0 <= k < msg@.len() ==> (#[trigger] msg@[k]) as int == s@[36 + k],
            decreases s@.len() - j,
        {
            let b = s[j];
            push_char(&mut msg, b as char);
            j += 1;
        }
        if match_lit(s, j, "\"}") && j + 2 == s.len() {
            proof {
                assert(msg_bytes(msg@) =~= s@.subrange(36, j as int));
                lemma_concat3(s@, rpre_failure(), msg_bytes(msg@), close_quote());
            }
            return Ok(Response::FailureMessage { message: msg });
        }
        proof {
            assert forall|resp: Response| response_wf(resp) implies s@ != #[trigger] wire_response(
                resp,
            ) by {
                if s@ == wire_response(resp) {
                    lemma_wire_response_byte9(resp);
                    lemma_starts_with_index(s@, 0, rpre_failure(), 9);
                    match resp {
                        Response::FailureMessage { message: m } => {
                            lemma_concat3_parts(s@, rpre_failure(), msg_bytes(m@), close_quote());
                            let ml = m@.len() as int;
                            lemma_starts_with_index(s@, 36 + ml, close_quote(), 0);
                            assert(s@[36 + ml] == 34);
                            assert forall|k: int| 0 <= k < ml implies 32 <= #[trigger] s@[36 + k]
                                <= 126 && s@[36 + k] != 34 && s@[36 + k] != 92 by {
                                lemma_starts_with_index(s@, 36, msg_bytes(m@), k);
                                assert(msg_bytes(m@)[k] == m@[k] as u8);
                            }
                            if j < 36 + ml {
                                assert(32 <= s@[36 + (j - 36)] <= 126);
                                assert(s@.len() == 36 + ml + 2);
                            } else if j > 36 + ml {
                                assert(msg@[ml] as int == s@[36 + ml]);
                            }
                        }
                        _ => {}
                    }
                }
            }
        }
        return Err(ProtocolError);
    }
    proof {
        assert forall|resp: Response| response_wf(resp) implies s@ != #[trigger] wire_response(
            resp,
        ) by {
            if s@ == wire_response(resp) {
                lemma_wire_response_prefix(resp);
            }
        }
    }
    Err(ProtocolError)
}

/// Two canonical numbers standing at the same offset, each followed by a
/// non-digit, are the same number.
proof fn lemma_digits_at_unique(s: Seq<u8>, i: int, a: int, b: int)
    requires
        0 <= i,
        a >= 0,
        b >= 0,
        starts_with_at(s, i, dec_digits(a)),
        i + dec_digits(a).len() == s.len() || !is_digit(s[i + dec_digits(a).len()]),
        starts_with_at(s, i, dec_digits(b)),
        i + dec_digits(b).len() == s.len() || !is_digit(s[i + dec_digits(b).len()]),
    ensures
        a == b,
{
    lemma_dec_digits_props(a);
    lemma_dec_digits_props(b);
    lemma_run_end_of(s, i, dec_digits(a));
    lemma_run_end_of(s, i, dec_digits(b));
    assert(dec_digits(a).len() == dec_digits(b).len());
    assert(dec_digits(a) == s.subrange(i, i + dec_digits(a).len()));
    assert(dec_digits(a) == dec_digits(b));
    assert(dec_val(dec_digits(a)) == dec_val(dec_digits(b)));
}

/// Encoding commands is injective: equal frames come from equal commands.
/// With `decode_command`'s contract this gives the round trip: decoding an
/// encoded command returns the original.
pub proof fn lemma_wire_command_injective(c1: Command, c2: Command)
    requires
        wire_command(c1) == wire_command(c2),
    ensures
        c1 == c2,
{
    lemma_cmd_lit_facts();
    lemma_wire_command_byte9(c1);
    lemma_wire_command_byte9(c2);
    let s = wire_command(c1);
    match c1 {
        Command::CreateGame => {
            assert(c2 is CreateGame);
        }
        Command::AvailableColors { id: a } => {
            match c2 {
                Command::AvailableColors { id: b } => {
                    lemma_concat3_parts(s, pre_avail(), dec_digits(a as int), close_brace());
                    lemma_concat3_parts(s, pre_avail(), dec_digits(b as int), close_brace());
                    lemma_starts_with_index(
                        s,
                        (31 + dec_digits(a as int).len()) as int,
                        close_brace(),
                        0,
                    );
                    lemma_starts_with_index(
                        s,
                        (31 + dec_digits(b as int).len()) as int,
                        close_brace(),
                        0,
                    );
                    lemma_digits_at_unique(s, 31, a as int, b as int);
                }
                _ => {}
            }
        }
        Command::JoinGame { id: a, color: ca } => {
            match c2 {
                Command::JoinGame { id: b, color: cb } => {
                    lemma_concat5_parts(
                        s,
                        pre_join(),
                        dec_digits(a as int),
                        sep_color(),
                        wire_color(ca),
                        close_brace(),
                    );
                    lemma_concat5_parts(
                        s,
                        pre_join(),
                        dec_digits(b as int),
                        sep_color(),
                        wire_color(cb),
                        close_brace(),
                    );
                    lemma_starts_with_index(s, (24 + dec_digits(a as int).len()) as int, sep_color(), 0);
                    lemma_starts_with_index(s, (24 + dec_digits(b as int).len()) as int, sep_color(), 0);
                    lemma_digits_at_unique(s, 24, a as int, b as int);
                    let dl = dec_digits(a as int).len() as int;
                    lemma_color_at_unique(s, 24 + dl + 9, ca, cb);
                }
                _ => {}
            }
        }
        Command::StartGame { id: a } => {
            match c2 {
                Command::StartGame { id: b } => {
                    lemma_concat3_parts(s, pre_start(), dec_digits(a as int), close_brace());
                    lemma_concat3_parts(s, pre_start(), dec_digits(b as int), close_brace());
                    lemma_starts_with_index(
                        s,
                        (25 + dec_digits(a as int).len()) as int,
                        close_brace(),
                        0,
                    );
                    lemma_starts_with_index(
                        s,
                        (25 + dec_digits(b as int).len()) as int,
                        close_brace(),
                        0,
                    );
                    lemma_digits_at_unique(s, 25, a as int, b as int);
                }
                _ => {}
            }
        }
    }
}

/// Encoding color lists is injective.
proof fn lemma_wire_colors_injective(cs1: Seq<Color>, cs2: Seq<Color>)
    requires
        wire_colors(cs1) + close_list() == wire_colors(cs2) + close_list(),
    ensures
        cs1 == cs2,
    decreases cs1.len(),
{
    lemma_resp_lit_facts();
    lemma_cmd_lit_facts();
    let s = wire_colors(cs1) + close_list();
    assert(s.subrange(0, s.len() as int) =~= s);
    if cs1.len() == 0 && cs2.len() == 0 {
        assert(cs1 =~= cs2);
    } else if cs1.len() == 0 {
        lemma_list_step(s, 0, cs2);
        lemma_starts_with_index(s, 0, wire_color(cs2[0]), 0);
        assert(wire_colors(cs1) + close_list() =~= close_list());
    } else if cs2.len() == 0 {
        lemma_list_step(s, 0, cs1);
        lemma_starts_with_index(s, 0, wire_color(cs1[0]), 0);
        assert(wire_colors(cs2) + close_list() =~= close_list());
    } else {
        lemma_list_step(s, 0, cs1);
        lemma_list_step(s, 0, cs2);
        lemma_color_at_unique(s, 0, cs1[0], cs2[0]);
        let w0 = wire_color(cs1[0]).len() as int;
        if cs1.len() == 1 && cs2.len() == 1 {
            assert(cs1 =~= cs2);
        } else if cs1.len() == 1 {
            lemma_starts_with_index(s, w0, close_list(), 0);
            lemma_starts_with_index(s, w0, comma(), 0);
        } else if cs2.len() == 1 {
            lemma_starts_with_index(s, w0, close_list(), 0);
            lemma_starts_with_index(s, w0, comma(), 0);
        } else {
            let t = s.subrange(w0 + 1, s.len() as int);
            assert(t == wire_colors(cs1.drop_first()) + close_list());
            assert(t == wire_colors(cs2.drop_first()) + close_list());
            lemma_wire_colors_injective(cs1.drop_first(), cs2.drop_first());
            assert(cs1.len() == cs2.len());
            assert forall|k: int| 0 <= k < cs1.len() implies cs1[k] == cs2[k] by {
                if k > 0 {
                    assert(cs1[k] == cs1.drop_first()[k - 1]);
                    assert(cs2[k] == cs2.drop_first()[k - 1]);
                }
            }
            assert(cs1 =~= cs2);
        }
    }
}

/// Two wire-safe texts in the same frame are the same text: the closing
/// quote pins where each ends.
proof fn lemma_msg_unique(s: Seq<u8>, m1: Seq<char>, m2: Seq<char>)
    requires
        json_safe(m1),
        json_safe(m2),
        s == rpre_failure() + msg_bytes(m1) + close_quote(),
        s == rpre_failure() + msg_bytes(m2) + close_quote(),
    ensures
        m1 == m2,
{
    lemma_resp_lit_facts();
    lemma_concat3_parts(s, rpre_failure(), msg_bytes(m1), close_quote());
    lemma_concat3_parts(s, rpre_failure(), msg_bytes(m2), close_quote());
    let l1 = m1.len() as int;
    let l2 = m2.len() as int;
    if l1 < l2 {
        lemma_starts_with_index(s, 36 + l1, close_quote(), 0);
        lemma_starts_with_index(s, 36, msg_bytes(m2), l1);
        assert(msg_bytes(m2)[l1] == m2[l1] as u8);
    } else if l2 < l1 {
        lemma_starts_with_index(s, 36 + l2, close_quote(), 0);
        lemma_starts_with_index(s, 36, msg_bytes(m1), l2);
        assert(msg_bytes(m1)[l2] == m1[l2] as u8);
    } else {
        assert forall|k: int| 0 <= k < l1 implies m1[k] == m2[k] by {
            lemma_starts_with_index(s, 36, msg_bytes(m1), k);
            lemma_starts_with_index(s, 36, msg_bytes(m2), k);
            assert(m1[k] as u8 == m2[k] as u8);
            assert(m1[k] as int == m1[k] as u8);
            assert(m2[k] as int == m2[k] as u8);
        }
        assert(m1 =~= m2);
    }
}

/// Encoding responses is injective over wire-safe responses: equal frames
/// carry the same variant with the same contents. With `decode_response`'s
/// contract this gives the round trip: decoding an encoded response returns
/// the original.
pub proof fn lemma_wire_response_injective(r1: Response, r2: Response)
    requires
        response_wf(r1),
        response_wf(r2),
        wire_response(r1) == wire_response(r2),
    ensures
        r1 is AvailableColors <==> r2 is AvailableColors,
        r1 is PickedColor <==> r2 is PickedColor,
        r1 is CreateGameResponse <==> r2 is CreateGameResponse,
        r1 is FailureMessage <==> r2 is FailureMessage,
        r1 matches Response::AvailableColors { colors: a } ==> (r2
            matches Response::AvailableColors { colors: b } ==> a@ == b@),
        r1 matches Response::PickedColor { color: a } ==> (r2 matches Response::PickedColor {
            color: b,
        } ==> a == b),
        r1 matches Response::CreateGameResponse { game_id: a } ==> (r2
            matches Response::CreateGameResponse { game_id: b } ==> a == b),
        r1 matches Response::FailureMessage { message: a } ==> (r2
            matches Response::FailureMessage { message: b } ==> a@ == b@),
{
    lemma_resp_lit_facts();
    lemma_cmd_lit_facts();
    lemma_wire_response_byte9(r1);
    lemma_wire_response_byte9(r2);
    let s = wire_response(r1);
    match r1 {
        Response::AvailableColors { colors: a } => {
            match r2 {
                Response::AvailableColors { colors: b } => {
                    let t = s.subrange(36, s.len() as int);
                    assert(s =~= rpre_avail() + (wire_colors(a@) + close_list()));
                    lemma_concat_parts(s, rpre_avail(), wire_colors(a@) + close_list());
                    assert(t == wire_colors(a@) + close_list());
                    assert(s == wire_response(r2));
                    assert(s =~= rpre_avail() + (wire_colors(b@) + close_list()));
                    lemma_concat_parts(s, rpre_avail(), wire_colors(b@) + close_list());
                    assert(t == wire_colors(b@) + close_list());
                    lemma_wire_colors_injective(a@, b@);
                }
                _ => {}
            }
        }
        Response::PickedColor { color: a } => {
            match r2 {
                Response::PickedColor { color: b } => {
                    lemma_concat3_parts(s, rpre_picked(), wire_color(a), close_brace());
                    lemma_concat3_parts(s, rpre_picked(), wire_color(b), close_brace());
                    lemma_color_at_unique(s, 30, a, b);
                }
                _ => {}
            }
        }
        Response::CreateGameResponse { game_id: a } => {
            match r2 {
                Response::CreateGameResponse { game_id: b } => {
                    lemma_concat3_parts(s, rpre_created(), dec_digits(a as int), close_brace());
                    lemma_concat3_parts(s, rpre_created(), dec_digits(b as int), close_brace());
                    lemma_starts_with_index(
                        s,
                        (39 + dec_digits(a as int).len()) as int,
                        close_brace(),
                        0,
                    );
                    lemma_starts_with_index(
                        s,
                        (39 + dec_digits(b as int).len()) as int,
                        close_brace(),
                        0,
                    );
                    lemma_digits_at_unique(s, 39, a as int, b as int);
                }
                _ => {}
            }
        }
        Response::FailureMessage { message: a } => {
            match r2 {
                Response::FailureMessage { message: b } => {
                    lemma_msg_unique(s, a@, b@);
                }
                _ => {}
            }
        }
    }
}

impl Response {
    /// The response as one text frame: a string whose characters are
    /// exactly the bytes of the canonical frame.
    pub fn to_json(self) -> (r: String)
        requires
            response_wf(self),
        ensures
            msg_bytes(r@) == wire_response(self),
            r@.len() == wire_response(self).len(),
    {
        let bytes = encode_response(&self);
        let mut r = String::new();
        let mut j: usize = 0;
        while j < bytes.len()
            invariant
                0 <= j <= bytes@.len(),
                r@.len() == j,
                forall|k: int| 0 <= k < j ==> (#[trigger] r@[k]) as u8 == bytes@[k],
            decreases bytes@.len() - j,
        {
            push_char(&mut r, bytes[j] as char);
            j += 1;
        }
        proof {
            assert(msg_bytes(r@) =~= bytes@);
        }
        r
    }
}

} // verus!
