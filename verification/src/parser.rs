//! Assembly text to `Instruction`.
use vstd::prelude::*;
use vstd::string::*;
use crate::instruction::{Instruction, SpecialRegister};

verus! {

/// The characters that separate the words of an assembly line.
pub open spec fn is_delimiter(c: char) -> bool {
    c == ',' || c == ' ' || c == '(' || c == ')'
}

/// The words of a line: its maximal runs of characters other than delimiters.
pub open spec fn tokens(s: Seq<char>) -> Seq<Seq<char>>
    decreases s.len(),
{
    if s.len() == 0 {
        seq![]
    } else {
        let t = tokens(s.drop_last());
        let c = s.last();
        if is_delimiter(c) {
            t
        } else if s.len() >= 2 && !is_delimiter(s[s.len() - 2]) {
            t.update(t.len() - 1, t.last().push(c))
        } else {
            t.push(seq![c])
        }
    }
}

/// The text with its leading `x` and `p` characters removed.
pub open spec fn strip_register_prefix(s: Seq<char>) -> Seq<char>
    decreases s.len(),
{
    if s.len() > 0 && (s[0] == 'x' || s[0] == 'p') {
        strip_register_prefix(s.drop_first())
    } else {
        s
    }
}

/// The text with its trailing commas removed.
pub open spec fn strip_trailing_commas(s: Seq<char>) -> Seq<char>
    decreases s.len(),
{
    if s.len() > 0 && s.last() == ',' {
        strip_trailing_commas(s.drop_last())
    } else {
        s
    }
}

/// The text with every leading `0x` removed.
pub open spec fn strip_hex_prefix(s: Seq<char>) -> Seq<char>
    decreases s.len(),
{
    if s.len() >= 2 && s[0] == '0' && s[1] == 'x' {
        strip_hex_prefix(s.subrange(2, s.len() as int))
    } else {
        s
    }
}

/// The value of a digit in base 10 or 16.
pub open spec fn digit_value(c: char, radix: nat) -> Option<nat> {
    if '0' <= c && c <= '9' {
        Some((c as int - '0' as int) as nat)
    } else if radix == 16 && 'a' <= c && c <= 'f' {
        Some((c as int - 'a' as int + 10) as nat)
    } else if radix == 16 && 'A' <= c && c <= 'F' {
        Some((c as int - 'A' as int + 10) as nat)
    } else {
        None
    }
}

/// The value of a string of digits in the given base, if every character is one.
pub open spec fn digits_value(d: Seq<char>, radix: nat) -> Option<nat>
    decreases d.len(),
{
    if d.len() == 0 {
        Some(0)
    } else {
        match (digits_value(d.drop_last(), radix), digit_value(d.last(), radix)) {
            (Some(v), Some(x)) => Some(v * radix + x),
            _ => None,
        }
    }
}

/// An integer written in the given base with an optional sign (`-` only where
/// `signed`), as std's `from_str_radix` reads it: the value, when it lies in
/// `[min, max]`.
pub open spec fn parse_int(s: Seq<char>, radix: nat, signed: bool, min: int, max: int) -> Option<int> {
    if s.len() == 0 {
        None
    } else {
        let neg = signed && s[0] == '-';
        let d = if s[0] == '+' || neg { s.drop_first() } else { s };
        if d.len() == 0 {
            None
        } else {
            match digits_value(d, radix) {
                Some(v) => {
                    let x = if neg { -v } else { v as int };
                    if min <= x && x <= max { Some(x) } else { None }
                },
                None => None,
            }
        }
    }
}

/// The register a word names: its number after the leading `x`/`p`, from 0 to 96.
pub open spec fn register_value(t: Seq<char>) -> Option<u8> {
    match parse_int(strip_trailing_commas(strip_register_prefix(t)), 10, false, 0, 255) {
        Some(v) => if v <= 96 { Some(v as u8) } else { None },
        None => None,
    }
}

/// The immediate a word holds: a decimal `i16`, or else a hexadecimal one
/// after its leading `0x`.
pub open spec fn immediate_value(t: Seq<char>) -> Option<i16> {
    match parse_int(t, 10, true, -32768, 32767) {
        Some(v) => Some(v as i16),
        None => match parse_int(strip_hex_prefix(t), 16, true, -32768, 32767) {
            Some(v) => Some(v as i16),
            None => None,
        },
    }
}

/// The predicate value a word holds.
pub open spec fn predicate_value(t: Seq<char>) -> Option<bool> {
    if t == "true"@ { Some(true) } else if t == "false"@ { Some(false) } else { None }
}

/// A register operand, or the error that reports the word.
pub open spec fn register_result(t: Seq<char>) -> Result<u8, Seq<char>> {
    match register_value(t) {
        Some(v) => Ok(v),
        None => Err("Invalid register: "@ + t),
    }
}

/// An immediate operand, or the error that reports the word.
pub open spec fn immediate_result(t: Seq<char>) -> Result<i16, Seq<char>> {
    match immediate_value(t) {
        Some(v) => Ok(v),
        None => Err("Invalid immediate value: "@ + t),
    }
}

/// A predicate operand, or the error that reports the word.
pub open spec fn predicate_result(t: Seq<char>) -> Result<bool, Seq<char>> {
    match predicate_value(t) {
        Some(v) => Ok(v),
        None => Err("Invalid predicate value: "@ + t),
    }
}

/// Three register operands, or the first error among them.
pub open spec fn three_registers(a: Seq<char>, b: Seq<char>, c: Seq<char>) -> Result<(u8, u8, u8), Seq<char>> {
    match register_result(a) {
        Err(e) => Err(e),
        Ok(x) => match register_result(b) {
            Err(e) => Err(e),
            Ok(y) => match register_result(c) {
                Err(e) => Err(e),
                Ok(z) => Ok((x, y, z)),
            },
        },
    }
}

/// Register, register, immediate, or the first error among them.
pub open spec fn reg_reg_imm(a: Seq<char>, b: Seq<char>, c: Seq<char>) -> Result<(u8, u8, i16), Seq<char>> {
    match register_result(a) {
        Err(e) => Err(e),
        Ok(x) => match register_result(b) {
            Err(e) => Err(e),
            Ok(y) => match immediate_result(c) {
                Err(e) => Err(e),
                Ok(z) => Ok((x, y, z)),
            },
        },
    }
}

/// Register, immediate, register, or the first error among them.
pub open spec fn reg_imm_reg(a: Seq<char>, b: Seq<char>, c: Seq<char>) -> Result<(u8, i16, u8), Seq<char>> {
    match register_result(a) {
        Err(e) => Err(e),
        Ok(x) => match immediate_result(b) {
            Err(e) => Err(e),
            Ok(y) => match register_result(c) {
                Err(e) => Err(e),
                Ok(z) => Ok((x, y, z)),
            },
        },
    }
}

/// The error for a wrong number of operands.
pub open spec fn operand_count_error(name: Seq<char>) -> Seq<char> {
    "Incorrect number of operands for '"@ + name + "' instruction"@
}

/// What a `mov` line stands for, given its two operand words.
pub open spec fn parse_mov(a: Seq<char>, b: Seq<char>) -> Result<Instruction, Seq<char>> {
    if a == "LC"@ {
        match immediate_result(b) {
            Ok(v) => Ok(Instruction::MovL(SpecialRegister::LoopCount, v)),
            Err(e) => Err(e),
        }
    } else if a == "EC"@ {
        match immediate_result(b) {
            Ok(v) => Ok(Instruction::MovL(SpecialRegister::EpCount, v)),
            Err(e) => Err(e),
        }
    } else {
        match register_result(a) {
            Err(e) => Err(e),
            Ok(d) => if a[0] == 'p' {
                match predicate_result(b) {
                    Ok(v) => Ok(Instruction::MovP(d, v)),
                    Err(e) => Err(e),
                }
            } else if a[0] == 'x' {
                if b[0] == 'x' {
                    match register_result(b) {
                        Ok(v) => Ok(Instruction::Mov(d, v)),
                        Err(e) => Err(e),
                    }
                } else {
                    match immediate_result(b) {
                        Ok(v) => Ok(Instruction::MovI(d, v)),
                        Err(e) => Err(e),
                    }
                }
            } else {
                Err("Incorrect format of operands for 'mov' instruction"@)
            },
        }
    }
}

/// What an assembly line stands for, or the error that rejects it.
pub open spec fn parse_spec(s: Seq<char>) -> Result<Instruction, Seq<char>> {
    let parts = tokens(s);
    if parts.len() == 0 {
        Err("Empty input"@)
    } else {
        let op = parts[0];
        if op == "add"@ || op == "sub"@ || op == "mulu"@ {
            if parts.len() != 4 {
                Err(operand_count_error(op))
            } else {
                match three_registers(parts[1], parts[2], parts[3]) {
                    Err(e) => Err(e),
                    Ok((d, a, b)) => Ok(
                        if op == "add"@ { Instruction::Add(d, a, b) }
                        else if op == "sub"@ { Instruction::Sub(d, a, b) }
                        else { Instruction::Mulu(d, a, b) }),
                }
            }
        } else if op == "addi"@ {
            if parts.len() != 4 {
                Err(operand_count_error(op))
            } else {
                match reg_reg_imm(parts[1], parts[2], parts[3]) {
                    Err(e) => Err(e),
                    Ok((d, a, imm)) => Ok(Instruction::Addi(d, a, imm)),
                }
            }
        } else if op == "ld"@ || op == "st"@ {
            if parts.len() != 4 {
                Err(operand_count_error(op))
            } else {
                match reg_imm_reg(parts[1], parts[2], parts[3]) {
                    Err(e) => Err(e),
                    Ok((r, imm, addr)) => Ok(
                        if op == "ld"@ { Instruction::Ld(r, imm, addr) } else { Instruction::St(r, imm, addr) }),
                }
            }
        } else if op == "loop"@ || op == "loop.pip"@ {
            if parts.len() != 2 {
                Err(operand_count_error(op))
            } else {
                match immediate_result(parts[1]) {
                    Err(e) => Err(e),
                    Ok(imm) => Ok(
                        if op == "loop"@ { Instruction::Loop(imm as usize) } else { Instruction::LoopPip(imm as usize) }),
                }
            }
        } else if op == "mov"@ {
            if parts.len() != 3 {
                Err(operand_count_error(op))
            } else {
                parse_mov(parts[1], parts[2])
            }
        } else {
            Err("Unknown instruction"@)
        }
    }
}


/// The texts of the spans of `s`.
spec fn span_texts(s: Seq<char>, spans: Seq<(usize, usize)>) -> Seq<Seq<char>> {
    Seq::new(spans.len(), |k: int| s.subrange(spans[k].0 as int, spans[k].1 as int))
}

/// The positions `[start, end)` of the words of a line.
fn split_words(input: &str) -> (spans: Vec<(usize, usize)>)
    ensures
        span_texts(input@, spans@) == tokens(input@),
        forall|k: int| 0 <= k < spans@.len() ==> (#[trigger] spans@[k]).0 < spans@[k].1 <= input@.len(),
{
    let ghost s = input@;
    let n = input.unicode_len();
    let mut spans: Vec<(usize, usize)> = Vec::new();
    let mut in_word = false;
    let mut i: usize = 0;
    proof {
        assert(s.take(0) =~= Seq::<char>::empty());
        assert(span_texts(s, spans@) =~= tokens(s.take(0)));
    }
    while i < n
        invariant
            s == input@,
            n == s.len(),
            i <= n,
            span_texts(s, spans@) == tokens(s.take(i as int)),
            in_word == (i > 0 && !is_delimiter(s[i - 1])),
            in_word ==> spans@.len() > 0 && spans@.last().1 == i,
            forall|k: int| 0 <= k < spans@.len() ==> (#[trigger] spans@[k]).0 < spans@[k].1 <= i,
        decreases n - i,
    {
        let c = input.get_char(i);
        let ghost before = spans@;
        let ghost t = tokens(s.take(i as int));
        proof {
            assert(s.take(i + 1).drop_last() =~= s.take(i as int));
            assert(s.take(i + 1).last() == c);
            if i > 0 {
                assert(s.take(i + 1)[i - 1] == s[i - 1]);
            }
        }
        if c == ',' || c == ' ' || c == '(' || c == ')' {
            in_word = false;
            proof {
                assert(tokens(s.take(i + 1)) == t);
            }
        } else if in_word {
            let last = spans.len() - 1;
            let (a, _) = spans[last];
            spans.set(last, (a, i + 1));
            proof {
                assert(tokens(s.take(i + 1)) == t.update(t.len() - 1, t.last().push(c)));
                assert(span_texts(s, before)[last as int] == t.last());
                assert(s.subrange(a as int, i + 1) =~= s.subrange(a as int, i as int).push(c));
                assert(span_texts(s, spans@) =~= tokens(s.take(i + 1)));
            }
        } else {
            spans.push((i, i + 1));
            in_word = true;
            proof {
                assert(tokens(s.take(i + 1)) == t.push(seq![c]));
                assert(s.subrange(i as int, i + 1) =~= seq![c]);
                assert(span_texts(s, spans@) =~= tokens(s.take(i + 1)));
            }
        }
        i = i + 1;
    }
    proof {
        assert(s.take(n as int) =~= s);
    }
    spans
}

/// Whether two texts are equal.
fn str_eq(a: &str, b: &str) -> (r: bool)
    ensures
        r == (a@ == b@),
{
    let n = a.unicode_len();
    if n != b.unicode_len() {
        return false;
    }
    let mut i: usize = 0;
    while i < n
        invariant
            n == a@.len() == b@.len(),
            i <= n,
            forall|j: int| 0 <= j < i ==> a@[j] == b@[j],
        decreases n - i,
    {
        if a.get_char(i) != b.get_char(i) {
            return false;
        }
        i = i + 1;
    }
    assert(a@ =~= b@);
    true
}

/// The characters of a text.
pub(crate) fn chars_of(s: &str) -> (v: Vec<char>)
    ensures
        v@ == s@,
{
    let n = s.unicode_len();
    let mut v: Vec<char> = Vec::new();
    let mut i: usize = 0;
    while i < n
        invariant
            n == s@.len(),
            i <= n,
            v@ == s@.take(i as int),
        decreases n - i,
    {
        v.push(s.get_char(i));
        i = i + 1;
        assert(v@ =~= s@.take(i as int));
    }
    assert(s@.take(n as int) =~= s@);
    v
}

proof fn lemma_strip_prefix(s: Seq<char>, k: int, i: int)
    requires
        0 <= k <= i <= s.len(),
        forall|j: int| k <= j < i ==> s[j] == 'x' || s[j] == 'p',
        i == s.len() || !(s[i] == 'x' || s[i] == 'p'),
    ensures
        strip_register_prefix(s.subrange(k, s.len() as int)) == s.subrange(i, s.len() as int),
    decreases i - k,
{
    if k < i {
        assert(s.subrange(k, s.len() as int).drop_first() =~= s.subrange(k + 1, s.len() as int));
        lemma_strip_prefix(s, k + 1, i);
    }
}

proof fn lemma_strip_commas(s: Seq<char>, e: int, end: int)
    requires
        0 <= end <= e <= s.len(),
        forall|j: int| end <= j < e ==> s[j] == ',',
        end == 0 || s[end - 1] != ',',
    ensures
        strip_trailing_commas(s.subrange(0, e)) == s.subrange(0, end),
    decreases e - end,
{
    if end < e {
        assert(s.subrange(0, e).drop_last() =~= s.subrange(0, e - 1));
        lemma_strip_commas(s, e - 1, end);
    }
}

proof fn lemma_strip_hex(s: Seq<char>, k: int, i: int)
    requires
        0 <= k <= i <= s.len(),
        (i - k) % 2 == 0,
        forall|j: int| k <= j < i && (j - k) % 2 == 0 ==> #[trigger] s[j] == '0' && s[j + 1] == 'x',
        !(i + 1 < s.len() && s[i] == '0' && s[i + 1] == 'x'),
    ensures
        strip_hex_prefix(s.subrange(k, s.len() as int)) == s.subrange(i, s.len() as int),
    decreases i - k,
{
    if k < i {
        assert(s[k] == '0' && s[k + 1] == 'x');
        assert(s.subrange(k, s.len() as int).subrange(2, s.len() - k) =~= s.subrange(k + 2, s.len() as int));
        lemma_strip_hex(s, k + 2, i);
    }
}

/// The value of one digit in base 10 or 16.
fn digit_of(c: char, radix: u64) -> (r: Option<u64>)
    requires
        radix == 10 || radix == 16,
    ensures
        r is Some <==> digit_value(c, radix as nat) is Some,
        r is Some ==> r->0 == digit_value(c, radix as nat)->0 && r->0 < 16,
{
    if '0' <= c && c <= '9' {
        Some((c as u32 - '0' as u32) as u64)
    } else if radix == 16 && 'a' <= c && c <= 'f' {
        Some((c as u32 - 'a' as u32 + 10) as u64)
    } else if radix == 16 && 'A' <= c && c <= 'F' {
        Some((c as u32 - 'A' as u32 + 10) as u64)
    } else {
        None
    }
}

proof fn lemma_cap_step(v: nat, r: nat, x: nat, cap: nat)
    requires
        r >= 1,
        cap > 0,
    ensures
        (if v >= cap { cap } else if v * r + x >= cap { cap } else { v * r + x })
            == (if v * r + x >= cap { cap } else { v * r + x }),
{
    if v >= cap {
        assert(v * r >= v) by (nonlinear_arith)
            requires
                r >= 1,
        ;
    }
}

/// `parse_int` of `v[from..to]`.
fn parse_int_of(v: &Vec<char>, from: usize, to: usize, radix: u64, signed: bool, min: i64, max: i64) -> (r: Option<i64>)
    requires
        from <= to <= v@.len(),
        radix == 10 || radix == 16,
        -70000 < min <= max < 70000,
    ensures
        r is Some <==> parse_int(v@.subrange(from as int, to as int), radix as nat, signed, min as int, max as int) is Some,
        r is Some ==> r->0 == parse_int(v@.subrange(from as int, to as int), radix as nat, signed, min as int, max as int)->0,
{
    let ghost s = v@.subrange(from as int, to as int);
    if from == to {
        return None;
    }
    let neg = signed && v[from] == '-';
    let start = if v[from] == '+' || neg { from + 1 } else { from };
    if start == to {
        return None;
    }
    let ghost d = v@.subrange(start as int, to as int);
    proof {
        assert(s[0] == v@[from as int]);
        if start == from + 1 {
            assert(s.drop_first() =~= d);
        } else {
            assert(s =~= d);
        }
    }
    let cap: u64 = 70000;
    let mut acc: u64 = 0;
    let mut i = start;
    proof {
        assert(d.take(0) =~= Seq::<char>::empty());
    }
    while i < to
        invariant
            start <= i <= to <= v@.len(),
            from < to,
            start < to,
            d == v@.subrange(start as int, to as int),
            s == v@.subrange(from as int, to as int),
            s[0] == v@[from as int],
            neg == (signed && v@[from as int] == '-'),
            start == (if v@[from as int] == '+' || neg { from + 1 } else { from as int }),
            start == from + 1 ==> s.drop_first() == d,
            start == from ==> s == d,
            radix == 10 || radix == 16,
            cap == 70000,
            digits_value(d.take(i - start), radix as nat) is Some,
            acc == (if digits_value(d.take(i - start), radix as nat)->0 >= cap { cap as nat }
                else { digits_value(d.take(i - start), radix as nat)->0 }),
        decreases to - i,
    {
        let ghost pre = d.take(i - start);
        let ghost pre2 = d.take(i - start + 1);
        proof {
            assert(pre2.drop_last() =~= pre);
            assert(pre2.last() == v@[i as int]);
        }
        match digit_of(v[i], radix) {
            Some(x) => {
                proof {
                    lemma_cap_step(digits_value(pre, radix as nat)->0, radix as nat, x as nat, cap as nat);
                }
                if acc >= cap {
                    acc = cap;
                } else if acc * radix + x >= cap {
                    acc = cap;
                } else {
                    acc = acc * radix + x;
                }
            },
            None => {
                proof {
                    assert(d[i - start] == v@[i as int]);
                    lemma_digits_invalid(d, radix as nat, i - start);
                }
                return None;
            },
        }
        i = i + 1;
    }
    proof {
        assert(d.take(to - start) =~= d);
    }
    if acc >= cap {
        return None;
    }
    let value: i64 = if neg { -(acc as i64) } else { acc as i64 };
    if min <= value && value <= max {
        Some(value)
    } else {
        None
    }
}

proof fn lemma_digits_invalid(d: Seq<char>, radix: nat, k: int)
    requires
        0 <= k < d.len(),
        digit_value(d[k], radix) is None,
    ensures
        digits_value(d, radix) is None,
    decreases d.len(),
{
    if k < d.len() - 1 {
        assert(d.drop_last()[k] == d[k]);
        lemma_digits_invalid(d.drop_last(), radix, k);
    }
}


/// `r` is the outcome `spec` describes, its error as text.
pub open spec fn result_matches<T>(r: Result<T, String>, spec: Result<T, Seq<char>>) -> bool {
    match (r, spec) {
        (Ok(a), Ok(b)) => a == b,
        (Err(e), Err(f)) => e@ == f,
        _ => false,
    }
}

fn error_with(prefix: &str, s: &str) -> (e: String)
    ensures
        e@ == prefix@ + s@,
{
    let mut e = String::from_str(prefix);
    e.append(s);
    e
}

/// A register operand: its number after the leading `x` or `p`, from 0 to 96.
fn parse_register(s: &str) -> (r: Result<u8, String>)
    ensures
        result_matches(r, register_result(s@)),
{
    let v = chars_of(s);
    let n = v.len();
    let mut i0: usize = 0;
    while i0 < n && (v[i0] == 'x' || v[i0] == 'p')
        invariant
            n == v@.len(),
            i0 <= n,
            forall|j: int| 0 <= j < i0 ==> v@[j] == 'x' || v@[j] == 'p',
        decreases n - i0,
    {
        i0 = i0 + 1;
    }
    let mut e: usize = n;
    while e > i0 && v[e - 1] == ','
        invariant
            n == v@.len(),
            i0 <= e <= n,
            forall|j: int| e <= j < n ==> v@[j] == ',',
        decreases e,
    {
        e = e - 1;
    }
    proof {
        lemma_strip_prefix(v@, 0, i0 as int);
        assert(v@.subrange(0, n as int) =~= v@);
        let t = v@.subrange(i0 as int, n as int);
        assert forall|j: int| e - i0 <= j < n - i0 implies t[j] == ',' by {
            assert(t[j] == v@[i0 + j]);
        }
        if e > i0 {
            assert(t[e - i0 - 1] == v@[e - 1]);
        }
        lemma_strip_commas(t, n - i0, e - i0);
        assert(t.subrange(0, n - i0) =~= t);
        assert(t.subrange(0, e - i0) =~= v@.subrange(i0 as int, e as int));
    }
    match parse_int_of(&v, i0, e, 10, false, 0, 255) {
        Some(x) => {
            if x <= 96 {
                return Ok(x as u8);
            }
        },
        None => {},
    }
    Err(error_with("Invalid register: ", s))
}

/// An immediate operand: a decimal `i16`, or a hexadecimal one after its
/// leading `0x`.
fn parse_imm(s: &str) -> (r: Result<i16, String>)
    ensures
        result_matches(r, immediate_result(s@)),
{
    let v = chars_of(s);
    let n = v.len();
    proof {
        assert(v@.subrange(0, n as int) =~= v@);
    }
    match parse_int_of(&v, 0, n, 10, true, -32768, 32767) {
        Some(x) => {
            return Ok(x as i16);
        },
        None => {},
    }
    let mut i0: usize = 0;
    while i0 + 1 < n && v[i0] == '0' && v[i0 + 1] == 'x'
        invariant
            n == v@.len(),
            i0 <= n,
            i0 % 2 == 0,
            forall|j: int| 0 <= j < i0 && j % 2 == 0 ==> #[trigger] v@[j] == '0' && v@[j + 1] == 'x',
        decreases n - i0,
    {
        assert(v@[i0 as int] == '0' && v@[i0 + 1] == 'x');
        i0 = i0 + 2;
        assert forall|j: int| 0 <= j < i0 && j % 2 == 0 implies #[trigger] v@[j] == '0' && v@[j + 1] == 'x' by {
            if j < i0 - 2 {
            } else {
                assert(j == i0 - 2);
            }
        }
    }
    proof {
        lemma_strip_hex(v@, 0, i0 as int);
    }
    match parse_int_of(&v, i0, n, 16, true, -32768, 32767) {
        Some(x) => Ok(x as i16),
        None => Err(error_with("Invalid immediate value: ", s)),
    }
}

/// A predicate operand: `true` or `false`.
fn parse_pred(s: &str) -> (r: Result<bool, String>)
    ensures
        result_matches(r, predicate_result(s@)),
{
    if str_eq(s, "true") {
        Ok(true)
    } else if str_eq(s, "false") {
        Ok(false)
    } else {
        Err(error_with("Invalid predicate value: ", s))
    }
}

fn count_error(name: &str) -> (e: String)
    ensures
        e@ == operand_count_error(name@),
{
    let mut e = String::from_str("Incorrect number of operands for '");
    e.append(name);
    e.append("' instruction");
    e
}

fn parse_mov_words(a: &str, b: &str) -> (r: Result<Instruction, String>)
    requires
        a@.len() > 0,
        b@.len() > 0,
    ensures
        result_matches(r, parse_mov(a@, b@)),
{
    if str_eq(a, "LC") {
        match parse_imm(b) {
            Ok(v) => Ok(Instruction::MovL(SpecialRegister::LoopCount, v)),
            Err(e) => Err(e),
        }
    } else if str_eq(a, "EC") {
        match parse_imm(b) {
            Ok(v) => Ok(Instruction::MovL(SpecialRegister::EpCount, v)),
            Err(e) => Err(e),
        }
    } else {
        match parse_register(a) {
            Err(e) => Err(e),
            Ok(d) => {
                let c = a.get_char(0);
                if c == 'p' {
                    match parse_pred(b) {
                        Ok(v) => Ok(Instruction::MovP(d, v)),
                        Err(e) => Err(e),
                    }
                } else if c == 'x' {
                    if b.get_char(0) == 'x' {
                        match parse_register(b) {
                            Ok(v) => Ok(Instruction::Mov(d, v)),
                            Err(e) => Err(e),
                        }
                    } else {
                        match parse_imm(b) {
                            Ok(v) => Ok(Instruction::MovI(d, v)),
                            Err(e) => Err(e),
                        }
                    }
                } else {
                    Err(String::from_str("Incorrect format of operands for 'mov' instruction"))
                }
            },
        }
    }
}

/// Reads one line of assembly.
pub fn parse_instruction(input: &str) -> (r: Result<Instruction, String>)
    ensures
        result_matches(r, parse_spec(input@)),
{
    let spans = split_words(input);
    let ghost parts = tokens(input@);
    proof {
        assert(spans@.len() == parts.len());
        assert forall|k: int| 0 <= k < spans@.len() implies
            input@.subrange((#[trigger] spans@[k]).0 as int, spans@[k].1 as int) == parts[k] by {
            assert(span_texts(input@, spans@)[k] == parts[k]);
        }
    }
    if spans.len() == 0 {
        return Err(String::from_str("Empty input"));
    }
    let op = input.substring_char(spans[0].0, spans[0].1);
    let nparts = spans.len();
    if str_eq(op, "add") || str_eq(op, "sub") || str_eq(op, "mulu") {
        if nparts != 4 {
            return Err(count_error(op));
        }
        let w1 = input.substring_char(spans[1].0, spans[1].1);
        let w2 = input.substring_char(spans[2].0, spans[2].1);
        let w3 = input.substring_char(spans[3].0, spans[3].1);
        let d = match parse_register(w1) { Ok(x) => x, Err(e) => { return Err(e); } };
        let a = match parse_register(w2) { Ok(x) => x, Err(e) => { return Err(e); } };
        let b = match parse_register(w3) { Ok(x) => x, Err(e) => { return Err(e); } };
        if str_eq(op, "add") {
            Ok(Instruction::Add(d, a, b))
        } else if str_eq(op, "sub") {
            Ok(Instruction::Sub(d, a, b))
        } else {
            Ok(Instruction::Mulu(d, a, b))
        }
    } else if str_eq(op, "addi") {
        if nparts != 4 {
            return Err(count_error(op));
        }
        let w1 = input.substring_char(spans[1].0, spans[1].1);
        let w2 = input.substring_char(spans[2].0, spans[2].1);
        let w3 = input.substring_char(spans[3].0, spans[3].1);
        let d = match parse_register(w1) { Ok(x) => x, Err(e) => { return Err(e); } };
        let a = match parse_register(w2) { Ok(x) => x, Err(e) => { return Err(e); } };
        let imm = match parse_imm(w3) { Ok(x) => x, Err(e) => { return Err(e); } };
        Ok(Instruction::Addi(d, a, imm))
    } else if str_eq(op, "ld") || str_eq(op, "st") {
        if nparts != 4 {
            return Err(count_error(op));
        }
        let w1 = input.substring_char(spans[1].0, spans[1].1);
        let w2 = input.substring_char(spans[2].0, spans[2].1);
        let w3 = input.substring_char(spans[3].0, spans[3].1);
        let reg = match parse_register(w1) { Ok(x) => x, Err(e) => { return Err(e); } };
        let imm = match parse_imm(w2) { Ok(x) => x, Err(e) => { return Err(e); } };
        let addr = match parse_register(w3) { Ok(x) => x, Err(e) => { return Err(e); } };
        if str_eq(op, "ld") {
            Ok(Instruction::Ld(reg, imm, addr))
        } else {
            Ok(Instruction::St(reg, imm, addr))
        }
    } else if str_eq(op, "loop") || str_eq(op, "loop.pip") {
        if nparts != 2 {
            return Err(count_error(op));
        }
        let w1 = input.substring_char(spans[1].0, spans[1].1);
        let imm = match parse_imm(w1) { Ok(x) => x, Err(e) => { return Err(e); } };
        if str_eq(op, "loop") {
            Ok(Instruction::Loop(imm as usize))
        } else {
            Ok(Instruction::LoopPip(imm as usize))
        }
    } else if str_eq(op, "mov") {
        if nparts != 3 {
            return Err(count_error(op));
        }
        let w1 = input.substring_char(spans[1].0, spans[1].1);
        let w2 = input.substring_char(spans[2].0, spans[2].1);
        parse_mov_words(w1, w2)
    } else {
        Err(String::from_str("Unknown instruction"))
    }
}

} // verus!
