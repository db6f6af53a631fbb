//! The registry's durable representation: a text form holding the record
//! count followed by each record, every number written as sixteen hex
//! digits and every string length-prefixed, so that decoding needs no
//! escaping and inverts encoding exactly. Reading and writing the actual
//! file is the caller's concern; this module only turns a registry into
//! text and back.

use crate::errors::ServiceError;
use crate::registry::{wf, Registry, Server, ServerModel};
use crate::text::{chars_to_string, str_to_chars};
use vstd::prelude::*;
use vstd::string::*;

verus! {

/// Powers of sixteen.
pub open spec fn pow16(k: nat) -> nat
    decreases k,
{
    if k == 0 {
        1
    } else {
        16 * pow16((k - 1) as nat)
    }
}

/// The character for one hex digit value.
pub open spec fn hex_digit(v: nat) -> char {
    if v == 0 {
        '0'
    } else if v == 1 {
        '1'
    } else if v == 2 {
        '2'
    } else if v == 3 {
        '3'
    } else if v == 4 {
        '4'
    } else if v == 5 {
        '5'
    } else if v == 6 {
        '6'
    } else if v == 7 {
        '7'
    } else if v == 8 {
        '8'
    } else if v == 9 {
        '9'
    } else if v == 10 {
        'a'
    } else if v == 11 {
        'b'
    } else if v == 12 {
        'c'
    } else if v == 13 {
        'd'
    } else if v == 14 {
        'e'
    } else {
        'f'
    }
}

/// The value of one hex digit character; 16 marks a non-digit.
pub open spec fn hex_val(c: char) -> nat {
    if c == '0' {
        0
    } else if c == '1' {
        1
    } else if c == '2' {
        2
    } else if c == '3' {
        3
    } else if c == '4' {
        4
    } else if c == '5' {
        5
    } else if c == '6' {
        6
    } else if c == '7' {
        7
    } else if c == '8' {
        8
    } else if c == '9' {
        9
    } else if c == 'a' {
        10
    } else if c == 'b' {
        11
    } else if c == 'c' {
        12
    } else if c == 'd' {
        13
    } else if c == 'e' {
        14
    } else if c == 'f' {
        15
    } else {
        16
    }
}

/// Whether a character is a hex digit of this format.
pub open spec fn is_hex(c: char) -> bool {
    hex_val(c) < 16
}

/// Whether every character of `s` is a hex digit.
pub open spec fn all_hex(s: Seq<char>) -> bool {
    forall|i: int| 0 <= i < s.len() ==> is_hex(s[i])
}

/// `n` written as exactly `k` hex digits, most significant first.
pub open spec fn hex_of(n: nat, k: nat) -> Seq<char>
    decreases k,
{
    if k == 0 {
        Seq::empty()
    } else {
        hex_of(n / 16, (k - 1) as nat).push(hex_digit(n % 16))
    }
}

/// The value of a hex digit string.
pub open spec fn val_of(s: Seq<char>) -> nat
    decreases s.len(),
{
    if s.len() == 0 {
        0
    } else {
        val_of(s.drop_last()) * 16 + hex_val(s.last())
    }
}

/// A string's encoding: its length as sixteen hex digits, then its
/// characters verbatim.
pub open spec fn enc_str(s: Seq<char>) -> Seq<char> {
    hex_of(s.len(), 16) + s
}

/// Reads a sixteen-digit number at position `i`.
pub open spec fn p_num(s: Seq<char>, i: int) -> Option<(nat, int)> {
    if 0 <= i && i + 16 <= s.len() && all_hex(s.subrange(i, i + 16)) {
        Some((val_of(s.subrange(i, i + 16)), i + 16))
    } else {
        None
    }
}

/// Reads a length-prefixed string at position `i`.
pub open spec fn p_str(s: Seq<char>, i: int) -> Option<(Seq<char>, int)> {
    match p_num(s, i) {
        Some((n, j)) => {
            if j + n <= s.len() {
                Some((s.subrange(j, j + n as int), j + n as int))
            } else {
                None
            }
        },
        None => None,
    }
}

/// The sixteen-digit encoding is within `u64` range and vice versa.
pub proof fn lemma_pow16_16()
    ensures
        pow16(16) == 0x1_0000_0000_0000_0000,
{
    assert(pow16(0) == 1);
    assert(pow16(1) == 16);
    assert(pow16(2) == 0x100);
    assert(pow16(3) == 0x1000);
    assert(pow16(4) == 0x1_0000);
    assert(pow16(5) == 0x10_0000);
    assert(pow16(6) == 0x100_0000);
    assert(pow16(7) == 0x1000_0000);
    assert(pow16(8) == 0x1_0000_0000);
    assert(pow16(9) == 0x10_0000_0000);
    assert(pow16(10) == 0x100_0000_0000);
    assert(pow16(11) == 0x1000_0000_0000);
    assert(pow16(12) == 0x1_0000_0000_0000);
    assert(pow16(13) == 0x10_0000_0000_0000);
    assert(pow16(14) == 0x100_0000_0000_0000);
    assert(pow16(15) == 0x1000_0000_0000_0000);
}

/// Powers of sixteen grow with the exponent.
proof fn lemma_pow16_mono(a: nat, b: nat)
    requires
        a <= b,
    ensures
        pow16(a) <= pow16(b),
        pow16(a) >= 1,
    decreases b,
{
    if a == b {
        if a == 0 {
        } else {
            lemma_pow16_mono((a - 1) as nat, (a - 1) as nat);
        }
    } else {
        lemma_pow16_mono(a, (b - 1) as nat);
    }
}

/// Writing a digit then reading it back is the identity.
proof fn lemma_hex_digit_val(v: nat)
    requires
        v < 16,
    ensures
        hex_val(hex_digit(v)) == v,
        is_hex(hex_digit(v)),
{
}

/// A fixed-width rendering has that width and is all digits.
proof fn lemma_hex_of_shape(n: nat, k: nat)
    ensures
        hex_of(n, k).len() == k,
        all_hex(hex_of(n, k)),
    decreases k,
{
    if k > 0 {
        lemma_hex_of_shape(n / 16, (k - 1) as nat);
        lemma_hex_digit_val(n % 16);
        assert forall|i: int| 0 <= i < k implies is_hex(hex_of(n, k)[i]) by {
            if i < k - 1 {
                assert(hex_of(n, k)[i] == hex_of(n / 16, (k - 1) as nat)[i]);
            } else {
                assert(hex_of(n, k)[i] == hex_digit(n % 16));
            }
        }
    }
}

/// Reading back a fixed-width rendering gives the number again.
proof fn lemma_val_hex_of(n: nat, k: nat)
    requires
        n < pow16(k),
    ensures
        val_of(hex_of(n, k)) == n,
    decreases k,
{
    if k == 0 {
    } else {
        let rest = hex_of(n / 16, (k - 1) as nat);
        let whole = hex_of(n, k);
        assert(whole == rest.push(hex_digit(n % 16)));
        assert(whole.drop_last() =~= rest);
        assert(whole.last() == hex_digit(n % 16));
        assert(n / 16 < pow16((k - 1) as nat)) by {
            assert(pow16(k) == 16 * pow16((k - 1) as nat));
            assert(n < 16 * pow16((k - 1) as nat));
            assert(16 * (n / 16) <= n) by (nonlinear_arith);
            assert(n / 16 < pow16((k - 1) as nat)) by (nonlinear_arith)
                requires
                    16 * (n / 16) <= n,
                    n < 16 * pow16((k - 1) as nat),
            ;
        }
        lemma_val_hex_of(n / 16, (k - 1) as nat);
        lemma_hex_digit_val(n % 16);
        assert(val_of(whole) == val_of(rest) * 16 + hex_val(whole.last()));
        assert(n == 16 * (n / 16) + n % 16) by (nonlinear_arith);
    }
}

/// A concatenation sitting inside `s` splits into its two parts.
proof fn lemma_split_cat(s: Seq<char>, i: int, a: Seq<char>, b: Seq<char>)
    requires
        0 <= i,
        i + a.len() + b.len() <= s.len(),
        s.subrange(i, i + a.len() + b.len()) == a + b,
    ensures
        s.subrange(i, i + a.len() as int) == a,
        s.subrange(i + a.len(), i + a.len() + b.len()) == b,
{
    let whole = s.subrange(i, i + a.len() + b.len());
    assert forall|k: int| 0 <= k < a.len() implies s[i + k] == a[k] by {
        assert(whole[k] == s[i + k]);
        assert((a + b)[k] == a[k]);
    }
    assert(s.subrange(i, i + a.len() as int) =~= a);
    assert forall|k: int| 0 <= k < b.len() implies s[i + a.len() + k] == b[k] by {
        assert(whole[a.len() + k] == s[i + a.len() + k]);
        assert((a + b)[a.len() + k] == b[k]);
    }
    assert(s.subrange(i + a.len(), i + a.len() + b.len()) =~= b);
}

/// A number rendered at position `i` parses back to itself.
proof fn lemma_p_num_enc(s: Seq<char>, i: int, n: nat)
    requires
        0 <= i,
        i + 16 <= s.len(),
        n < pow16(16),
        s.subrange(i, i + 16) == hex_of(n, 16),
    ensures
        p_num(s, i) == Some((n, i + 16)),
{
    lemma_hex_of_shape(n, 16);
    lemma_val_hex_of(n, 16);
}

/// A string encoded at position `i` parses back to itself.
proof fn lemma_p_str_enc(s: Seq<char>, i: int, x: Seq<char>)
    requires
        0 <= i,
        i + enc_str(x).len() <= s.len(),
        x.len() < pow16(16),
        s.subrange(i, i + enc_str(x).len()) == enc_str(x),
    ensures
        p_str(s, i) == Some((x, i + enc_str(x).len())),
        enc_str(x).len() == 16 + x.len(),
{
    lemma_hex_of_shape(x.len(), 16);
    lemma_split_cat(s, i, hex_of(x.len(), 16), x);
    lemma_p_num_enc(s, i, x.len());
    assert(s.subrange(i + 16, i + 16 + x.len()) == x);
}

/// The exec form of `hex_digit`.
pub(crate) fn hex_char_of(v: u64) -> (c: char)
    requires
        v < 16,
    ensures
        c == hex_digit(v as nat),
{
    if v == 0 {
        '0'
    } else if v == 1 {
        '1'
    } else if v == 2 {
        '2'
    } else if v == 3 {
        '3'
    } else if v == 4 {
        '4'
    } else if v == 5 {
        '5'
    } else if v == 6 {
        '6'
    } else if v == 7 {
        '7'
    } else if v == 8 {
        '8'
    } else if v == 9 {
        '9'
    } else if v == 10 {
        'a'
    } else if v == 11 {
        'b'
    } else if v == 12 {
        'c'
    } else if v == 13 {
        'd'
    } else if v == 14 {
        'e'
    } else {
        'f'
    }
}

/// The exec form of `hex_val`.
fn hex_val_of(c: char) -> (v: u64)
    ensures
        v == hex_val(c),
{
    if c == '0' {
        0
    } else if c == '1' {
        1
    } else if c == '2' {
        2
    } else if c == '3' {
        3
    } else if c == '4' {
        4
    } else if c == '5' {
        5
    } else if c == '6' {
        6
    } else if c == '7' {
        7
    } else if c == '8' {
        8
    } else if c == '9' {
        9
    } else if c == 'a' {
        10
    } else if c == 'b' {
        11
    } else if c == 'c' {
        12
    } else if c == 'd' {
        13
    } else if c == 'e' {
        14
    } else if c == 'f' {
        15
    } else {
        16
    }
}

/// Appends `n` as exactly `k` hex digits.
fn push_hex(out: &mut Vec<char>, n: u64, k: usize)
    ensures
        final(out)@ == old(out)@ + hex_of(n as nat, k as nat),
    decreases k,
{
    if k == 0 {
        proof {
            assert(old(out)@ + hex_of(n as nat, 0) =~= old(out)@);
        }
    } else {
        push_hex(out, n / 16, k - 1);
        out.push(hex_char_of(n % 16));
        proof {
            assert(n as nat / 16 == (n / 16) as nat);
            assert(n as nat % 16 == (n % 16) as nat);
            assert(out@ =~= old(out)@ + hex_of(n as nat, k as nat));
        }
    }
}

/// Appends the characters of a string slice.
fn push_chars(out: &mut Vec<char>, s: &str)
    ensures
        final(out)@ == old(out)@ + s@,
{
    let n = s.unicode_len();
    let mut i: usize = 0;
    while i < n
        invariant
            n == s@.len(),
            i <= n,
            out@ == old(out)@ + s@.take(i as int),
        decreases n - i,
    {
        out.push(s.get_char(i));
        proof {
            assert(out@ =~= old(out)@ + s@.take(i + 1));
        }
        i = i + 1;
    }
    proof {
        assert(s@.take(n as int) =~= s@);
    }
}

/// Appends the length-prefixed encoding of a string slice.
fn push_enc_str(out: &mut Vec<char>, s: &str)
    ensures
        final(out)@ == old(out)@ + enc_str(s@),
{
    let n = s.unicode_len();
    push_hex(out, n as u64, 16);
    push_chars(out, s);
    proof {
        assert((n as u64) as nat == s@.len());
        assert(out@ =~= old(out)@ + enc_str(s@));
    }
}

/// Reads the sixteen-digit number at position `i`, rejecting anything
/// shorter or not made of hex digits.
fn parse_num(s: &Vec<char>, i: usize) -> (r: Result<(u64, usize), ServiceError>)
    ensures
        match r {
            Ok((v, j)) => p_num(s@, i as int) == Some((v as nat, j as int)) && i < j <= s@.len(),
            Err(e) => e == ServiceError::Storage && p_num(s@, i as int) is None,
        },
{
    if i > s.len() || s.len() - i < 16 {
        return Err(ServiceError::Storage);
    }
    proof {
        lemma_pow16_16();
    }
    let ghost digits = s@.subrange(i as int, i + 16);
    proof {
        assert(s@.len() <= usize::MAX);
    }
    let mut acc: u64 = 0;
    let mut k: usize = 0;
    while k < 16
        invariant
            k <= 16,
            i + 16 <= s@.len(),
            s@.len() <= usize::MAX,
            digits == s@.subrange(i as int, i + 16),
            all_hex(digits.take(k as int)),
            acc as nat == val_of(digits.take(k as int)),
            acc as nat <= pow16(k as nat) - 1,
            pow16(16) == 0x1_0000_0000_0000_0000,
        decreases 16 - k,
    {
        let c = s[i + k];
        let v = hex_val_of(c);
        proof {
            assert(digits[k as int] == c);
        }
        if v >= 16 {
            proof {
                assert(!is_hex(digits[k as int]));
            }
            return Err(ServiceError::Storage);
        }
        proof {
            lemma_pow16_mono(k as nat, 15);
            lemma_pow16_16();
            assert(pow16((k + 1) as nat) == 16 * pow16(k as nat));
            assert(digits.take(k + 1).drop_last() =~= digits.take(k as int));
            assert(digits.take(k + 1).last() == digits[k as int]);
        }
        acc = acc * 16 + v;
        k = k + 1;
        proof {
            assert forall|q: int| 0 <= q < k implies is_hex(digits.take(k as int)[q]) by {
                assert(digits.take(k as int)[q] == digits[q]);
            }
        }
    }
    proof {
        assert(digits.take(16) =~= digits);
    }
    Ok((acc, i + 16))
}

/// Reads the length-prefixed string at position `i`.
fn parse_str(s: &Vec<char>, i: usize) -> (r: Result<(Vec<char>, usize), ServiceError>)
    ensures
        match r {
            Ok((v, j)) => p_str(s@, i as int) == Some((v@, j as int)) && i < j <= s@.len(),
            Err(e) => e == ServiceError::Storage && p_str(s@, i as int) is None,
        },
{
    let (n, j) = match parse_num(s, i) {
        Ok(p) => p,
        Err(e) => {
            return Err(e);
        },
    };
    if n > (s.len() - j) as u64 {
        return Err(ServiceError::Storage);
    }
    let m = n as usize;
    let mut v: Vec<char> = Vec::new();
    let mut k: usize = 0;
    while k < m
        invariant
            k <= m,
            j + m <= s@.len(),
            s@.len() <= usize::MAX,
            v@ == s@.subrange(j as int, j + k),
        decreases m - k,
    {
        v.push(s[j + k]);
        proof {
            assert(v@ =~= s@.subrange(j as int, j + k + 1));
        }
        k = k + 1;
    }
    Ok((v, j + m))
}

/// An optional string's encoding: `-` for absent, `+` and the string's
/// encoding for present.
pub open spec fn enc_version(v: Option<Seq<char>>) -> Seq<char> {
    match v {
        Some(x) => seq!['+'] + enc_str(x),
        None => seq!['-'],
    }
}

/// The encodings of a string sequence, one after the other.
pub open spec fn enc_mods(mods: Seq<Seq<char>>) -> Seq<char>
    decreases mods.len(),
{
    if mods.len() == 0 {
        Seq::empty()
    } else {
        enc_mods(mods.drop_last()) + enc_str(mods.last())
    }
}

/// One record's encoding: id, name, optional version, mod count, mods.
pub open spec fn enc_record(r: ServerModel) -> Seq<char> {
    hex_of(r.id as nat, 16) + enc_str(r.name) + enc_version(r.version) + hex_of(r.mods.len(), 16)
        + enc_mods(r.mods)
}

/// The encodings of a record sequence, one after the other.
pub open spec fn enc_records(m: Seq<ServerModel>) -> Seq<char>
    decreases m.len(),
{
    if m.len() == 0 {
        Seq::empty()
    } else {
        enc_records(m.drop_last()) + enc_record(m.last())
    }
}

/// A whole registry's durable text: the record count, then each record.
pub open spec fn spec_encode(m: Seq<ServerModel>) -> Seq<char> {
    hex_of(m.len(), 16) + enc_records(m)
}

/// Reads an optional string at position `i`.
pub open spec fn p_version(s: Seq<char>, i: int) -> Option<(Option<Seq<char>>, int)> {
    if 0 <= i < s.len() {
        if s[i] == '-' {
            Some((None, i + 1))
        } else if s[i] == '+' {
            match p_str(s, i + 1) {
                Some((v, j)) => Some((Some(v), j)),
                None => None,
            }
        } else {
            None
        }
    } else {
        None
    }
}

/// Reads `count` length-prefixed strings starting at position `i`.
pub open spec fn p_strs(s: Seq<char>, i: int, count: nat) -> Option<(Seq<Seq<char>>, int)>
    decreases count,
{
    if count == 0 {
        Some((Seq::empty(), i))
    } else {
        match p_str(s, i) {
            Some((v, j)) => match p_strs(s, j, (count - 1) as nat) {
                Some((vs, k)) => Some((seq![v] + vs, k)),
                None => None,
            },
            None => None,
        }
    }
}

/// Reads one record at position `i`.
pub open spec fn p_record(s: Seq<char>, i: int) -> Option<(ServerModel, int)> {
    match p_num(s, i) {
        Some((idn, j1)) => {
            if idn <= u64::MAX {
                match p_str(s, j1) {
                    Some((name, j2)) => match p_version(s, j2) {
                        Some((ver, j3)) => match p_num(s, j3) {
                            Some((mc, j4)) => match p_strs(s, j4, mc) {
                                Some((mods, j5)) => Some(
                                    (
                                        ServerModel {
                                            id: idn as u64,
                                            name: name,
                                            version: ver,
                                            mods: mods,
                                        },
                                        j5,
                                    ),
                                ),
                                None => None,
                            },
                            None => None,
                        },
                        None => None,
                    },
                    None => None,
                }
            } else {
                None
            }
        },
        None => None,
    }
}

/// Reads `count` records starting at position `i`.
pub open spec fn p_records(s: Seq<char>, i: int, count: nat) -> Option<(Seq<ServerModel>, int)>
    decreases count,
{
    if count == 0 {
        Some((Seq::empty(), i))
    } else {
        match p_record(s, i) {
            Some((r, j)) => match p_records(s, j, (count - 1) as nat) {
                Some((rs, k)) => Some((seq![r] + rs, k)),
                None => None,
            },
            None => None,
        }
    }
}

/// What a durable text denotes: the records it lists, provided the whole
/// text is consumed and ids are distinct; anything else is malformed.
pub open spec fn spec_decode(s: Seq<char>) -> Option<Seq<ServerModel>> {
    match p_num(s, 0) {
        Some((n, i)) => match p_records(s, i, n) {
            Some((m, j)) => {
                if j == s.len() && wf(m) {
                    Some(m)
                } else {
                    None
                }
            },
            None => None,
        },
        None => None,
    }
}

/// Record fields small enough for their sixteen-digit length prefixes.
pub open spec fn bounded_record(r: ServerModel) -> bool {
    &&& r.name.len() <= u64::MAX
    &&& (match r.version {
        Some(v) => v.len() <= u64::MAX,
        None => true,
    })
    &&& r.mods.len() <= u64::MAX
    &&& (forall|k: int| 0 <= k < r.mods.len() ==> r.mods[k].len() <= u64::MAX)
}

/// A registry small enough for its sixteen-digit count prefix.
pub open spec fn bounded_model(m: Seq<ServerModel>) -> bool {
    &&& m.len() <= u64::MAX
    &&& (forall|i: int| 0 <= i < m.len() ==> bounded_record(m[i]))
}

/// Reads an optional string at position `i`, rejecting any other mark
/// than `+` or `-`.
fn parse_version(s: &Vec<char>, i: usize) -> (r: Result<(Option<String>, usize), ServiceError>)
    ensures
        match r {
            Ok((v, j)) => p_version(s@, i as int) == Some((v.deep_view(), j as int)) && i < j
                <= s@.len(),
            Err(e) => e == ServiceError::Storage && p_version(s@, i as int) is None,
        },
{
    if i >= s.len() {
        return Err(ServiceError::Storage);
    }
    let c = s[i];
    if c == '-' {
        Ok((None, i + 1))
    } else if c == '+' {
        match parse_str(s, i + 1) {
            Ok((v, j)) => Ok((Some(chars_to_string(&v)), j)),
            Err(e) => Err(e),
        }
    } else {
        Err(ServiceError::Storage)
    }
}

/// Reads one record at position `i`.
fn parse_record(s: &Vec<char>, i: usize) -> (r: Result<(Server, usize), ServiceError>)
    ensures
        match r {
            Ok((rec, j)) => p_record(s@, i as int) == Some((rec@, j as int)) && i < j <= s@.len(),
            Err(e) => e == ServiceError::Storage && p_record(s@, i as int) is None,
        },
{
    let (id, j1) = match parse_num(s, i) {
        Ok(p) => p,
        Err(e) => {
            return Err(e);
        },
    };
    let (name_chars, j2) = match parse_str(s, j1) {
        Ok(p) => p,
        Err(e) => {
            return Err(e);
        },
    };
    let (version, j3) = match parse_version(s, j2) {
        Ok(p) => p,
        Err(e) => {
            return Err(e);
        },
    };
    let (mod_count, j4) = match parse_num(s, j3) {
        Ok(p) => p,
        Err(e) => {
            return Err(e);
        },
    };
    let mut mods: Vec<String> = Vec::new();
    let mut pos: usize = j4;
    let mut left: u64 = mod_count;
    #[verifier::loop_isolation(false)]
    while left > 0
        invariant
            j4 <= pos <= s@.len(),
            (match p_strs(s@, pos as int, left as nat) {
                Some((vs, k)) => p_strs(s@, j4 as int, mod_count as nat) == Some(
                    (mods.deep_view() + vs, k),
                ),
                None => p_strs(s@, j4 as int, mod_count as nat) is None,
            }),
        decreases left,
    {
        match parse_str(s, pos) {
            Ok((v, j)) => {
                let ghost mods_before = mods.deep_view();
                mods.push(chars_to_string(&v));
                proof {
                    assert(mods.deep_view() =~= mods_before.push(v@));
                    if p_strs(s@, j as int, (left - 1) as nat) is Some {
                        let (vs2, k2) = p_strs(s@, j as int, (left - 1) as nat)->Some_0;
                        assert(p_strs(s@, pos as int, left as nat) == Some(
                            (seq![v@] + vs2, k2),
                        ));
                        assert(mods_before + (seq![v@] + vs2) =~= mods_before.push(v@) + vs2);
                    } else {
                        assert(p_strs(s@, pos as int, left as nat) is None);
                    }
                }
                pos = j;
                left = left - 1;
            },
            Err(e) => {
                proof {
                    assert(p_strs(s@, pos as int, left as nat) is None);
                }
                return Err(e);
            },
        }
    }
    proof {
        assert(p_strs(s@, pos as int, 0) == Some((Seq::<Seq<char>>::empty(), pos as int)));
        assert(mods.deep_view() + Seq::<Seq<char>>::empty() =~= mods.deep_view());
        assert(p_strs(s@, j4 as int, mod_count as nat) == Some((mods.deep_view(), pos as int)));
    }
    let ghost verm = version.deep_view();
    let ghost modsm = mods.deep_view();
    let record = Server {
        id: id,
        name: chars_to_string(&name_chars),
        version: version,
        mods: mods,
    };
    proof {
        assert(record@ == ServerModel { id: id, name: name_chars@, version: verm, mods: modsm });
        assert(p_record(s@, i as int) == Some((record@, pos as int)));
    }
    Ok((record, pos))
}

/// Appends one record's encoding.
fn push_enc_record(out: &mut Vec<char>, r: &Server)
    ensures
        final(out)@ == old(out)@ + enc_record(r@),
{
    push_hex(out, r.id, 16);
    push_enc_str(out, r.name.as_str());
    match &r.version {
        Some(v) => {
            out.push('+');
            push_enc_str(out, v.as_str());
        },
        None => {
            out.push('-');
        },
    }
    proof {
        assert(out@ =~= old(out)@ + hex_of(r@.id as nat, 16) + enc_str(r@.name) + enc_version(
            r@.version,
        ));
    }
    push_hex(out, r.mods.len() as u64, 16);
    let ghost base = out@;
    let mut i: usize = 0;
    while i < r.mods.len()
        invariant
            i <= r.mods@.len(),
            r@.mods.len() == r.mods@.len(),
            r@.mods == r.mods.deep_view(),
            out@ == base + enc_mods(r@.mods.take(i as int)),
        decreases r.mods@.len() - i,
    {
        push_enc_str(out, r.mods[i].as_str());
        proof {
            assert(r@.mods.take(i + 1).drop_last() =~= r@.mods.take(i as int));
            assert(r@.mods.take(i + 1).last() == r@.mods[i as int]);
            assert(r@.mods[i as int] == r.mods@[i as int]@);
            assert(out@ =~= base + enc_mods(r@.mods.take(i + 1)));
        }
        i = i + 1;
    }
    proof {
        assert(r@.mods.take(r@.mods.len() as int) =~= r@.mods);
        assert(out@ =~= old(out)@ + enc_record(r@));
    }
}

/// Whether the records' ids are pairwise distinct.
fn check_wf(records: &Vec<Server>) -> (b: bool)
    ensures
        b == wf(records.deep_view()),
{
    let ghost m = records.deep_view();
    let mut i: usize = 0;
    while i < records.len()
        invariant
            i <= m.len(),
            m == records.deep_view(),
            m.len() == records@.len(),
            forall|a: int, b: int| 0 <= a < b < i ==> m[a].id != m[b].id,
        decreases m.len() - i,
    {
        let mut j: usize = 0;
        while j < i
            invariant
                j <= i,
                i < m.len(),
                m == records.deep_view(),
                m.len() == records@.len(),
                forall|a: int| 0 <= a < j ==> m[a].id != m[i as int].id,
            decreases i - j,
        {
            proof {
                assert(m[j as int].id == records@[j as int].id);
                assert(m[i as int].id == records@[i as int].id);
            }
            if records[j].id == records[i].id {
                return false;
            }
            j = j + 1;
        }
        i = i + 1;
    }
    true
}

/// Turns a registry into its durable text.
pub fn to_text(reg: &Registry) -> (r: String)
    ensures
        r@ == spec_encode(reg@),
{
    let records = reg.all();
    let ghost m = reg@;
    let mut out: Vec<char> = Vec::new();
    push_hex(&mut out, records.len() as u64, 16);
    let ghost base = out@;
    let mut i: usize = 0;
    while i < records.len()
        invariant
            i <= m.len(),
            m == records.deep_view(),
            m.len() == records@.len(),
            base == hex_of(m.len(), 16),
            out@ == base + enc_records(m.take(i as int)),
        decreases m.len() - i,
    {
        push_enc_record(&mut out, &records[i]);
        proof {
            assert(m.take(i + 1).drop_last() =~= m.take(i as int));
            assert(m.take(i + 1).last() == m[i as int]);
            assert(m[i as int] == records@[i as int]@);
            assert(out@ =~= base + enc_records(m.take(i + 1)));
        }
        i = i + 1;
    }
    proof {
        assert(m.take(m.len() as int) =~= m);
    }
    chars_to_string(&out)
}

/// Decodes a durable text back into a registry; anything but a complete,
/// well-formed encoding is a storage failure.
pub fn from_text(s: &str) -> (r: Result<Registry, ServiceError>)
    ensures
        match r {
            Ok(reg) => wf(reg@) && spec_decode(s@) == Some(reg@),
            Err(e) => e == ServiceError::Storage && spec_decode(s@) is None,
        },
{
    let chars = str_to_chars(s);
    let (count, start) = match parse_num(&chars, 0) {
        Ok(p) => p,
        Err(e) => {
            return Err(e);
        },
    };
    let mut records: Vec<Server> = Vec::new();
    let mut pos: usize = start;
    let mut left: u64 = count;
    #[verifier::loop_isolation(false)]
    while left > 0
        invariant
            pos <= chars@.len(),
            (match p_records(chars@, pos as int, left as nat) {
                Some((rs, k)) => p_records(chars@, start as int, count as nat) == Some(
                    (records.deep_view() + rs, k),
                ),
                None => p_records(chars@, start as int, count as nat) is None,
            }),
        decreases left,
    {
        match parse_record(&chars, pos) {
            Ok((rec, j)) => {
                let ghost records_before = records.deep_view();
                records.push(rec);
                proof {
                    assert(records.deep_view() =~= records_before.push(rec@));
                    if p_records(chars@, j as int, (left - 1) as nat) is Some {
                        let (rs2, k2) = p_records(chars@, j as int, (left - 1) as nat)->Some_0;
                        assert(p_records(chars@, pos as int, left as nat) == Some(
                            (seq![rec@] + rs2, k2),
                        ));
                        assert(records_before + (seq![rec@] + rs2) =~= records_before.push(rec@)
                            + rs2);
                    } else {
                        assert(p_records(chars@, pos as int, left as nat) is None);
                    }
                }
                pos = j;
                left = left - 1;
            },
            Err(e) => {
                proof {
                    assert(p_records(chars@, pos as int, left as nat) is None);
                }
                return Err(e);
            },
        }
    }
    proof {
        assert(p_records(chars@, pos as int, 0) == Some(
            (Seq::<ServerModel>::empty(), pos as int),
        ));
        assert(records.deep_view() + Seq::<ServerModel>::empty() =~= records.deep_view());
    }
    if pos != chars.len() {
        return Err(ServiceError::Storage);
    }
    if !check_wf(&records) {
        return Err(ServiceError::Storage);
    }
    let reg = Registry::from_records(records);
    Ok(reg)
}

/// Initializes a registry from a durable location's contents: absent
/// state bootstraps an empty registry rather than failing; existing state
/// must decode cleanly.
pub fn load(contents: Option<&str>) -> (r: Result<Registry, ServiceError>)
    ensures
        match r {
            Ok(reg) => wf(reg@) && (match contents {
                None => reg@ == Seq::<ServerModel>::empty(),
                Some(s) => spec_decode(s@) == Some(reg@),
            }),
            Err(e) => e == ServiceError::Storage && (match contents {
                None => false,
                Some(s) => spec_decode(s@) is None,
            }),
        },
{
    match contents {
        None => Ok(Registry::new()),
        Some(s) => from_text(s),
    }
}

/// A string-sequence encoding splits off its first string's encoding.
proof fn lemma_enc_mods_first(mods: Seq<Seq<char>>)
    requires
        mods.len() > 0,
    ensures
        enc_mods(mods) == enc_str(mods.first()) + enc_mods(mods.drop_first()),
    decreases mods.len(),
{
    let dl = mods.drop_last();
    let df = mods.drop_first();
    if mods.len() == 1 {
        assert(dl =~= Seq::<Seq<char>>::empty());
        assert(df =~= Seq::<Seq<char>>::empty());
        assert(mods.last() == mods.first());
        assert(Seq::<char>::empty() + enc_str(mods.first()) =~= enc_str(mods.first()));
        assert(enc_str(mods.first()) + Seq::<char>::empty() =~= enc_str(mods.first()));
    } else {
        lemma_enc_mods_first(dl);
        assert(dl.first() == mods.first());
        assert(df.drop_last() =~= dl.drop_first());
        assert(df.last() == mods.last());
        assert(enc_mods(df) == enc_mods(dl.drop_first()) + enc_str(mods.last()));
        assert(enc_str(mods.first()) + (enc_mods(dl.drop_first()) + enc_str(mods.last())) =~= (
        enc_str(mods.first()) + enc_mods(dl.drop_first())) + enc_str(mods.last()));
    }
}

/// A record-sequence encoding splits off its first record's encoding.
proof fn lemma_enc_records_first(m: Seq<ServerModel>)
    requires
        m.len() > 0,
    ensures
        enc_records(m) == enc_record(m.first()) + enc_records(m.drop_first()),
    decreases m.len(),
{
    let dl = m.drop_last();
    let df = m.drop_first();
    if m.len() == 1 {
        assert(dl =~= Seq::<ServerModel>::empty());
        assert(df =~= Seq::<ServerModel>::empty());
        assert(m.last() == m.first());
        assert(Seq::<char>::empty() + enc_record(m.first()) =~= enc_record(m.first()));
        assert(enc_record(m.first()) + Seq::<char>::empty() =~= enc_record(m.first()));
    } else {
        lemma_enc_records_first(dl);
        assert(dl.first() == m.first());
        assert(df.drop_last() =~= dl.drop_first());
        assert(df.last() == m.last());
        assert(enc_records(df) == enc_records(dl.drop_first()) + enc_record(m.last()));
        assert(enc_record(m.first()) + (enc_records(dl.drop_first()) + enc_record(m.last())) =~= (
        enc_record(m.first()) + enc_records(dl.drop_first())) + enc_record(m.last()));
    }
}

/// A sequence of encoded strings at position `i` parses back to itself.
proof fn lemma_p_strs_enc(s: Seq<char>, i: int, mods: Seq<Seq<char>>)
    requires
        0 <= i,
        i + enc_mods(mods).len() <= s.len(),
        s.subrange(i, i + enc_mods(mods).len()) == enc_mods(mods),
        forall|k: int| 0 <= k < mods.len() ==> #[trigger] mods[k].len() <= u64::MAX,
    ensures
        p_strs(s, i, mods.len()) == Some((mods, i + enc_mods(mods).len())),
    decreases mods.len(),
{
    lemma_pow16_16();
    if mods.len() == 0 {
        assert(mods =~= Seq::<Seq<char>>::empty());
    } else {
        lemma_enc_mods_first(mods);
        let e0 = enc_str(mods.first());
        let erest = enc_mods(mods.drop_first());
        lemma_split_cat(s, i, e0, erest);
        lemma_p_str_enc(s, i, mods.first());
        assert forall|k: int| 0 <= k < mods.drop_first().len() implies #[trigger] mods.drop_first(
        )[k].len() <= u64::MAX by {
            assert(mods.drop_first()[k] == mods[k + 1]);
        }
        lemma_p_strs_enc(s, i + e0.len(), mods.drop_first());
        assert(seq![mods.first()] + mods.drop_first() =~= mods);
    }
}

/// An encoded record at position `i` parses back to itself.
proof fn lemma_p_record_enc(s: Seq<char>, i: int, r: ServerModel)
    requires
        0 <= i,
        i + enc_record(r).len() <= s.len(),
        s.subrange(i, i + enc_record(r).len()) == enc_record(r),
        bounded_record(r),
    ensures
        p_record(s, i) == Some((r, i + enc_record(r).len())),
{
    lemma_pow16_16();
    let pa = hex_of(r.id as nat, 16);
    let pb = enc_str(r.name);
    let pc = enc_version(r.version);
    let pd = hex_of(r.mods.len(), 16);
    let pe = enc_mods(r.mods);
    lemma_hex_of_shape(r.id as nat, 16);
    lemma_hex_of_shape(r.name.len(), 16);
    lemma_hex_of_shape(r.mods.len(), 16);
    lemma_split_cat(s, i, pa + pb + pc + pd, pe);
    lemma_split_cat(s, i, pa + pb + pc, pd);
    lemma_split_cat(s, i, pa + pb, pc);
    lemma_split_cat(s, i, pa, pb);
    let i1 = i + 16;
    let i2 = i1 + pb.len();
    let i3 = i2 + pc.len();
    let i4 = i3 + 16;
    lemma_p_num_enc(s, i, r.id as nat);
    lemma_p_str_enc(s, i1, r.name);
    match r.version {
        None => {
            assert(s.subrange(i2, i2 + 1) == seq!['-']);
            assert(s[i2] == s.subrange(i2, i2 + 1)[0]);
            assert(p_version(s, i2) == Some((None::<Seq<char>>, i2 + 1)));
        },
        Some(v) => {
            lemma_split_cat(s, i2, seq!['+'], enc_str(v));
            assert(s[i2] == s.subrange(i2, i2 + 1)[0]);
            lemma_p_str_enc(s, i2 + 1, v);
            assert(p_version(s, i2) == Some((Some(v), i3)));
        },
    }
    lemma_p_num_enc(s, i3, r.mods.len());
    lemma_p_strs_enc(s, i4, r.mods);
    assert(ServerModel { id: r.id, name: r.name, version: r.version, mods: r.mods } == r);
}

/// A sequence of encoded records at position `i` parses back to itself.
proof fn lemma_p_records_enc(s: Seq<char>, i: int, m: Seq<ServerModel>)
    requires
        0 <= i,
        i + enc_records(m).len() <= s.len(),
        s.subrange(i, i + enc_records(m).len()) == enc_records(m),
        forall|k: int| 0 <= k < m.len() ==> bounded_record(#[trigger] m[k]),
    ensures
        p_records(s, i, m.len()) == Some((m, i + enc_records(m).len())),
    decreases m.len(),
{
    if m.len() == 0 {
        assert(m =~= Seq::<ServerModel>::empty());
    } else {
        lemma_enc_records_first(m);
        let e0 = enc_record(m.first());
        let erest = enc_records(m.drop_first());
        lemma_split_cat(s, i, e0, erest);
        lemma_p_record_enc(s, i, m.first());
        assert forall|k: int| 0 <= k < m.drop_first().len() implies bounded_record(
            #[trigger] m.drop_first()[k],
        ) by {
            assert(m.drop_first()[k] == m[k + 1]);
        }
        lemma_p_records_enc(s, i + e0.len(), m.drop_first());
        assert(seq![m.first()] + m.drop_first() =~= m);
    }
}

/// Decoding the encoding of a well-formed registry yields exactly that
/// registry: persistence round-trips every record bit for bit.
pub proof fn lemma_decode_encode(m: Seq<ServerModel>)
    requires
        wf(m),
        bounded_model(m),
    ensures
        spec_decode(spec_encode(m)) == Some(m),
{
    lemma_pow16_16();
    let s = spec_encode(m);
    lemma_hex_of_shape(m.len(), 16);
    assert(s.subrange(0, s.len() as int) =~= s);
    lemma_split_cat(s, 0, hex_of(m.len(), 16), enc_records(m));
    lemma_p_num_enc(s, 0, m.len());
    lemma_p_records_enc(s, 16, m);
}

} // verus!

