use vstd::arithmetic::div_mod::{lemma_breakdown, lemma_fundamental_div_mod_converse, lemma_mod_mod};
use vstd::prelude::*;

verus! {

/// Whether `c` belongs to the 64-symbol alphabet.
pub open spec fn is_symbol(c: char) -> bool {
    ('0' <= c && c <= '9') || ('A' <= c && c <= 'Z') || ('a' <= c && c <= 'z') || c == '+' || c
        == '-'
}

/// The digit value (0..64) of an alphabet symbol.
pub open spec fn symbol_value(c: char) -> int {
    if '0' <= c && c <= '9' {
        c as u32 - 48 + 52
    } else if 'A' <= c && c <= 'Z' {
        c as u32 - 65 + 26
    } else if 'a' <= c && c <= 'z' {
        c as u32 - 97
    } else if c == '+' {
        62
    } else {
        63
    }
}

/// The alphabet symbol of a digit value in 0..64.
pub open spec fn symbol_of(v: int) -> char {
    if v < 26 {
        (v + 97) as u8 as char
    } else if v < 52 {
        (v + 65 - 26) as u8 as char
    } else if v < 62 {
        (v + 48 - 52) as u8 as char
    } else if v == 62 {
        '+'
    } else {
        '-'
    }
}

/// Maps a character to its digit value, or hands back the character when it
/// is outside the alphabet.
pub fn _chr_to_index(chr: char) -> (r: Result<u8, char>)
    ensures
        is_symbol(chr) ==> r == Ok::<u8, char>(symbol_value(chr) as u8),
        !is_symbol(chr) ==> r == Err::<u8, char>(chr),
{
    if '0' <= chr && chr <= '9' {
        Ok((chr as u32 - 48 + 52) as u8)
    } else if 'A' <= chr && chr <= 'Z' {
        Ok((chr as u32 - 65 + 26) as u8)
    } else if 'a' <= chr && chr <= 'z' {
        Ok((chr as u32 - 97) as u8)
    } else if chr == '+' {
        Ok(62)
    } else if chr == '-' {
        Ok(63)
    } else {
        Err(chr)
    }
}

/// Maps a digit value to its alphabet symbol, or hands back the value when it
/// is 64 or more.
pub fn _index_to_chr(index: u8) -> (r: Result<char, u8>)
    ensures
        index < 64 ==> r == Ok::<char, u8>(symbol_of(index as int)),
        index >= 64 ==> r == Err::<char, u8>(index),
{
    if index <= 25 {
        Ok((index + 97) as char)
    } else if index <= 51 {
        Ok((index + 65 - 26) as char)
    } else if index <= 61 {
        Ok((index + 48 - 52) as char)
    } else if index == 62 {
        Ok('+')
    } else if index == 63 {
        Ok('-')
    } else {
        Err(index)
    }
}

/// Every character of `s` belongs to the alphabet.
pub open spec fn is_code(s: Seq<char>) -> bool {
    forall|i: int| 0 <= i < s.len() ==> is_symbol(#[trigger] s[i])
}

/// `c` is the leftmost character of `s` outside the alphabet.
pub open spec fn is_first_non_symbol(s: Seq<char>, c: char) -> bool {
    exists|i: int|
        0 <= i < s.len() && s[i] == c && !is_symbol(c) && is_code(#[trigger] s.take(i))
}

/// 64 to the power `n`.
pub open spec fn pow64(n: nat) -> int
    decreases n,
{
    if n == 0 {
        1
    } else {
        64 * pow64((n - 1) as nat)
    }
}

/// The integer that a code denotes, read most significant symbol first.
pub open spec fn code_value(s: Seq<char>) -> int
    decreases s.len(),
{
    if s.len() == 0 {
        0
    } else {
        code_value(s.drop_last()) * 64 + symbol_value(s.last())
    }
}

/// The code of `n` symbols for `i`: its `n` lowest base-64 digits, most
/// significant first, padded on the left with the zero symbol.
pub open spec fn encoded(i: int, n: nat) -> Seq<char>
    decreases n,
{
    if n == 0 {
        Seq::empty()
    } else {
        encoded(i / 64, (n - 1) as nat).push(symbol_of(i % 64))
    }
}

/// 2 to the 64: the range of a `u64`.
pub open spec fn u64_range() -> int {
    0x1_0000_0000_0000_0000
}

/// Symbols and digit values correspond one to one.
pub proof fn lemma_symbol_round_trip(v: int, c: char)
    ensures
        0 <= v < 64 ==> is_symbol(symbol_of(v)) && symbol_value(symbol_of(v)) == v,
        is_symbol(c) ==> 0 <= symbol_value(c) < 64 && symbol_of(symbol_value(c)) == c,
{
}

pub proof fn lemma_pow64_positive(n: nat)
    ensures
        pow64(n) >= 1,
    decreases n,
{
    if n > 0 {
        lemma_pow64_positive((n - 1) as nat);
    }
}

/// A code of `n` symbols denotes an integer in `[0, 64^n)`.
pub proof fn lemma_code_value_range(s: Seq<char>)
    requires
        is_code(s),
    ensures
        0 <= code_value(s) < pow64(s.len()),
    decreases s.len(),
{
    if s.len() > 0 {
        let t = s.drop_last();
        assert(is_code(t)) by {
            assert forall|i: int| 0 <= i < t.len() implies is_symbol(#[trigger] t[i]) by {
                assert(t[i] == s[i]);
            }
        }
        lemma_code_value_range(t);
        lemma_symbol_round_trip(0, s.last());
        assert(0 <= code_value(s) < pow64(s.len())) by (nonlinear_arith)
            requires
                code_value(s) == code_value(t) * 64 + symbol_value(s.last()),
                0 <= code_value(t) < pow64(t.len()),
                0 <= symbol_value(s.last()) < 64,
                pow64(s.len()) == 64 * pow64(t.len()),
        ;
    }
}

/// `encoded(i, n)` has exactly `n` symbols, each of the alphabet.
pub proof fn lemma_encoded_shape(i: int, n: nat)
    requires
        0 <= i,
    ensures
        encoded(i, n).len() == n,
        is_code(encoded(i, n)),
    decreases n,
{
    if n > 0 {
        lemma_encoded_shape(i / 64, (n - 1) as nat);
        lemma_symbol_round_trip(i % 64, 'a');
        let e = encoded(i, n);
        assert forall|k: int| 0 <= k < e.len() implies is_symbol(#[trigger] e[k]) by {
            if k < n - 1 {
                assert(e[k] == encoded(i / 64, (n - 1) as nat)[k]);
            }
        }
    }
}

/// Decoding the code of `i` gives back `i` reduced to the code's range.
pub proof fn lemma_decode_encoded(i: int, n: nat)
    requires
        0 <= i,
    ensures
        code_value(encoded(i, n)) == i % pow64(n),
    decreases n,
{
    if n == 0 {
        assert(i % 1 == 0);
    } else {
        let m = (n - 1) as nat;
        lemma_decode_encoded(i / 64, m);
        lemma_encoded_shape(i / 64, m);
        lemma_symbol_round_trip(i % 64, 'a');
        lemma_pow64_positive(m);
        let e = encoded(i, n);
        assert(e.drop_last() =~= encoded(i / 64, m));
        lemma_breakdown(i, 64, pow64(m));
    }
}

/// A code is the code of the integer it denotes.
pub proof fn lemma_encoded_code_value(s: Seq<char>)
    requires
        is_code(s),
    ensures
        encoded(code_value(s), s.len()) == s,
    decreases s.len(),
{
    if s.len() > 0 {
        let t = s.drop_last();
        assert(is_code(t)) by {
            assert forall|i: int| 0 <= i < t.len() implies is_symbol(#[trigger] t[i]) by {
                assert(t[i] == s[i]);
            }
        }
        lemma_encoded_code_value(t);
        lemma_symbol_round_trip(0, s.last());
        lemma_fundamental_div_mod_converse(code_value(s), 64, code_value(t), symbol_value(s.last()));
        assert(encoded(code_value(s), s.len()) =~= t.push(s.last()));
    }
}

/// Codes of `n` symbols and integers in `[0, 64^n)` correspond one to one:
/// decoding the code of `i` gives `i`, and the code has `n` symbols.
pub proof fn lemma_codec_round_trip(i: int, n: nat)
    requires
        0 <= i < pow64(n),
    ensures
        code_value(encoded(i, n)) == i,
        encoded(i, n).len() == n,
        is_code(encoded(i, n)),
{
    lemma_decode_encoded(i, n);
    lemma_encoded_shape(i, n);
    vstd::arithmetic::div_mod::lemma_small_mod(i as nat, pow64(n) as nat);
}

/// Writes `index` as a code of `order` symbols: its `order` lowest base-64
/// digits, most significant first.
pub fn index_to_code(index: u64, order: usize) -> (r: String)
    ensures
        r@ == encoded(index as int, order as nat),
{
    let ghost full = encoded(index as int, order as nat);
    proof {
        lemma_encoded_shape(index as int, order as nat);
    }
    // Digits are gathered least significant first.
    let mut index_mut = index;
    let mut chars: Vec<char> = Vec::new();
    let mut k: usize = 0;
    while k < order
        invariant
            k <= order,
            chars.len() == k,
            full.len() == order,
            full.subrange(0, order - k) == encoded(index_mut as int, (order - k) as nat),
            forall|j: int| 0 <= j < k ==> chars@[j] == #[trigger] full[order - 1 - j],
        decreases order - k,
    {
        let ghost before = encoded(index_mut as int, (order - k) as nat);
        // Every value below 64 has a symbol, so the error arm is never taken.
        let chr = match _index_to_chr((index_mut % 64) as u8) {
            Ok(c) => c,
            Err(_) => 'a',
        };
        proof {
            assert(before.drop_last() =~= encoded((index_mut / 64) as int, (order - k - 1) as nat));
            assert(full.subrange(0, order - k - 1) =~= before.subrange(0, order - k - 1));
            assert(full[order - 1 - k] == before[order - k - 1]);
        }
        chars.push(chr);
        index_mut = index_mut / 64;
        k = k + 1;
    }
    let mut code = String::new();
    let mut j: usize = 0;
    while j < order
        invariant
            j <= order,
            chars.len() == order,
            full.len() == order,
            forall|i: int| 0 <= i < order ==> chars@[i] == #[trigger] full[order - 1 - i],
            code@ == full.subrange(0, j as int),
        decreases order - j,
    {
        push_char(&mut code, chars[order - 1 - j]);
        proof {
            let i = (order - 1 - j) as int;
            assert(chars@[i] == full[order - 1 - i]);
        }
        j = j + 1;
        assert(code@ =~= full.subrange(0, j as int));
    }
    assert(code@ =~= full);
    code
}

/// Relies on `String::push`, which appends one character at the end.
#[verifier::external_body]
fn push_char(s: &mut String, c: char)
    ensures
        final(s)@ == old(s)@.push(c),
{
    s.push(c)
}

/// Reads a code, most significant symbol first, as an integer. The result
/// wraps at 64 bits; codes of up to ten symbols never wrap. A character
/// outside the alphabet is handed back as the error.
pub fn code_to_index(code: &String) -> (r: Result<u64, char>)
    ensures
        r is Ok <==> is_code(code@),
        r is Ok ==> r->Ok_0 == code_value(code@) % u64_range(),
        r is Err ==> is_first_non_symbol(code@, r->Err_0),
{
    let s = code.as_str();
    let n = s.unicode_len();
    let mut index: u64 = 0;
    let mut j: usize = 0;
    while j < n
        invariant
            n == code@.len(),
            s@ == code@,
            j <= n,
            is_code(code@.take(j as int)),
            index == code_value(code@.take(j as int)) % u64_range(),
        decreases n - j,
    {
        let chr = s.get_char(j);
        let ghost before = code@.take(j as int);
        let ghost after = code@.take(j + 1);
        let value = match _chr_to_index(chr) {
            Ok(v) => v,
            Err(c) => return Err(c),
        };
        proof {
            lemma_symbol_round_trip(0, chr);
            assert(after.drop_last() =~= before);
            assert(is_code(after)) by {
                assert forall|i: int| 0 <= i < after.len() implies is_symbol(#[trigger] after[i]) by {
                    if i < j {
                        assert(after[i] == before[i]);
                    }
                }
            }
            let x = code_value(before);
            lemma_code_value_range(before);
            lemma_mod_mod(x, 0x400_0000_0000_0000, 64);
            lemma_breakdown(x * 64 + value, 64, 0x400_0000_0000_0000);
            lemma_fundamental_div_mod_converse(x * 64 + value, 64, x, value as int);
        }
        // Keeping the low 58 bits makes the shift by one digit wrap at 64 bits.
        index = (index % 0x400_0000_0000_0000) * 64 + value as u64;
        j = j + 1;
    }
    assert(code@.take(n as int) =~= code@);
    Ok(index)
}

/// Powers of 64 grow with the exponent.
pub proof fn lemma_pow64_monotone(k: nat, m: nat)
    requires
        k <= m,
    ensures
        pow64(k) <= pow64(m),
    decreases m - k,
{
    if k < m {
        lemma_pow64_monotone(k, (m - 1) as nat);
        lemma_pow64_positive((m - 1) as nat);
    }
}

/// Whether every integer up to `n` has a code of `order` symbols.
pub fn fits_in_codes(n: u64, order: usize) -> (r: bool)
    ensures
        r == (n < pow64(order as nat)),
{
    let mut bound: u128 = 1;
    let mut k: usize = 0;
    while k < order && bound <= n as u128
        invariant
            k <= order,
            bound == pow64(k as nat),
        decreases order - k,
    {
        bound = bound * 64;
        k = k + 1;
    }
    proof {
        lemma_pow64_monotone(k as nat, order as nat);
    }
    (n as u128) < bound
}

} // verus!
