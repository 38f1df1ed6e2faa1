//! Printing an instruction and parsing the text back.
use vstd::prelude::*;
use vstd::string::*;
use crate::text::{digit_text, nat_text, int_text, bool_text};
use crate::instruction::{Instruction, SpecialRegister, instruction_text, special_register_text};
use crate::parser::{
    digit_value, digits_value, tokens, is_delimiter, register_value, immediate_value, parse_int,
    strip_register_prefix, strip_trailing_commas, strip_hex_prefix, parse_spec,
};

verus! {

/// The character is a decimal digit.
pub open spec fn is_digit(c: char) -> bool {
    '0' <= c && c <= '9'
}

proof fn lemma_digit_text(d: nat)
    requires
        d < 10,
    ensures
        digit_text(d).len() == 1,
        is_digit(digit_text(d)[0]),
        digit_value(digit_text(d)[0], 10) == Some(d),
{
    reveal_strlit("0");
    reveal_strlit("1");
    reveal_strlit("2");
    reveal_strlit("3");
    reveal_strlit("4");
    reveal_strlit("5");
    reveal_strlit("6");
    reveal_strlit("7");
    reveal_strlit("8");
    reveal_strlit("9");
}

/// The decimal text of a number is a non-empty run of digits that reads back
/// as the number.
pub proof fn lemma_nat_text(n: nat)
    ensures
        nat_text(n).len() >= 1,
        forall|i: int| 0 <= i < nat_text(n).len() ==> is_digit(#[trigger] nat_text(n)[i]),
        digits_value(nat_text(n), 10) == Some(n),
    decreases n,
{
    if n < 10 {
        lemma_digit_text(n);
        let s = nat_text(n);
        assert(s.drop_last() =~= Seq::<char>::empty());
        assert(digits_value(s.drop_last(), 10) == Some(0nat));
        assert(s.last() == digit_text(n)[0]);
        assert(digits_value(s, 10) == Some(0nat * 10 + n));
    } else {
        lemma_nat_text(n / 10);
        lemma_digit_text(n % 10);
        let a = nat_text(n / 10);
        let s = nat_text(n);
        assert(s == a + digit_text(n % 10));
        assert(s.drop_last() =~= a);
        assert(s.last() == digit_text(n % 10)[0]);
        assert forall|i: int| 0 <= i < s.len() implies is_digit(#[trigger] s[i]) by {
            if i < a.len() {
                assert(s[i] == a[i]);
            }
        }
        assert((n / 10) * 10 + n % 10 == n) by (nonlinear_arith);
        assert(digits_value(s.drop_last(), 10) == Some(n / 10));
        assert(digits_value(s, 10) == Some((n / 10) * 10 + n % 10));
    }
}

/// No character of `w` separates words.
pub open spec fn is_word(w: Seq<char>) -> bool {
    forall|i: int| 0 <= i < w.len() ==> !is_delimiter(#[trigger] w[i])
}

/// Every character of `d` separates words.
pub open spec fn is_gap(d: Seq<char>) -> bool {
    forall|i: int| 0 <= i < d.len() ==> is_delimiter(#[trigger] d[i])
}

proof fn lemma_tokens_word(w: Seq<char>)
    requires
        w.len() >= 1,
        is_word(w),
    ensures
        tokens(w) == seq![w],
    decreases w.len(),
{
    if w.len() == 1 {
        assert(w.drop_last() =~= Seq::<char>::empty());
        assert(tokens(w.drop_last()) == Seq::<Seq<char>>::empty());
        assert(seq![w.last()] =~= w);
        assert(!is_delimiter(w.last()));
        assert(tokens(w) == Seq::<Seq<char>>::empty().push(seq![w.last()]));
        assert(Seq::<Seq<char>>::empty().push(seq![w.last()]) =~= seq![w]);
    } else {
        let u = w.drop_last();
        assert forall|i: int| 0 <= i < u.len() implies !is_delimiter(#[trigger] u[i]) by {
            assert(u[i] == w[i]);
        }
        lemma_tokens_word(u);
        assert(!is_delimiter(w[w.len() - 2]));
        assert(u.push(w.last()) =~= w);
        assert(!is_delimiter(w.last()));
        assert(tokens(w) == tokens(u).update(tokens(u).len() - 1, tokens(u).last().push(w.last())));
        assert(seq![u].update(0, u.push(w.last())) =~= seq![w]);
    }
}

proof fn lemma_tokens_gap(a: Seq<char>, d: Seq<char>)
    requires
        is_gap(d),
    ensures
        tokens(a + d) == tokens(a),
    decreases d.len(),
{
    if d.len() > 0 {
        let d1 = d.drop_last();
        assert forall|i: int| 0 <= i < d1.len() implies is_delimiter(#[trigger] d1[i]) by {
            assert(d1[i] == d[i]);
        }
        lemma_tokens_gap(a, d1);
        assert((a + d).drop_last() =~= a + d1);
        assert((a + d).last() == d.last());
    } else {
        assert(a + d =~= a);
    }
}

proof fn lemma_tokens_nonempty(s: Seq<char>)
    requires
        s.len() >= 1,
        !is_delimiter(s.last()),
    ensures
        tokens(s).len() >= 1,
    decreases s.len(),
{
    if s.len() >= 2 && !is_delimiter(s[s.len() - 2]) {
        let u = s.drop_last();
        assert(u.last() == s[s.len() - 2]);
        lemma_tokens_nonempty(u);
    }
}

proof fn lemma_tokens_concat(a: Seq<char>, b: Seq<char>)
    requires
        a.len() == 0 || is_delimiter(a.last()),
    ensures
        tokens(a + b) == tokens(a) + tokens(b),
    decreases b.len(),
{
    if b.len() == 0 {
        assert(a + b =~= a);
        assert(tokens(b) =~= Seq::<Seq<char>>::empty());
        assert(tokens(a) + tokens(b) =~= tokens(a));
    } else {
        let b1 = b.drop_last();
        let c = b.last();
        lemma_tokens_concat(a, b1);
        let ab = a + b;
        assert(ab.drop_last() =~= a + b1);
        assert(ab.last() == c);
        let ta = tokens(a);
        let tb1 = tokens(b1);
        if is_delimiter(c) {
        } else if b1.len() >= 1 && !is_delimiter(b1.last()) {
            assert(ab[ab.len() - 2] == b1.last());
            assert(b[b.len() - 2] == b1.last());
            lemma_tokens_nonempty(b1);
            assert((ta + tb1).update((ta + tb1).len() - 1, (ta + tb1).last().push(c))
                =~= ta + tb1.update(tb1.len() - 1, tb1.last().push(c)));
        } else {
            if b1.len() >= 1 {
                assert(ab[ab.len() - 2] == b1.last());
                assert(b[b.len() - 2] == b1.last());
            } else if ab.len() >= 2 {
                assert(ab[ab.len() - 2] == a.last());
            }
            assert((ta + tb1).push(seq![c]) =~= ta + tb1.push(seq![c]));
        }
    }
}

/// A register word, `x` or `p` and the register's number, reads back as the
/// register.
proof fn lemma_register_word(c: char, n: u8)
    requires
        c == 'x' || c == 'p',
        n <= 96,
    ensures
        (seq![c] + nat_text(n as nat)).len() >= 1,
        is_word(seq![c] + nat_text(n as nat)),
        (seq![c] + nat_text(n as nat))[0] == c,
        register_value(seq![c] + nat_text(n as nat)) == Some(n),
{
    let d = nat_text(n as nat);
    let w = seq![c] + d;
    lemma_nat_text(n as nat);
    assert(w.drop_first() =~= d);
    assert(is_digit(d[0]));
    assert(strip_register_prefix(d) == d);
    assert(strip_register_prefix(w) == d);
    assert(is_digit(d.last()));
    assert(strip_trailing_commas(d) == d);
    assert(parse_int(d, 10, false, 0, 255) == Some(n as int));
    assert forall|i: int| 0 <= i < w.len() implies !is_delimiter(#[trigger] w[i]) by {
        if i > 0 {
            assert(w[i] == d[i - 1]);
        }
    }
}

/// The text of an immediate reads back as the immediate.
proof fn lemma_immediate_word(imm: i16)
    ensures
        int_text(imm as int).len() >= 1,
        is_word(int_text(imm as int)),
        int_text(imm as int)[0] != 'x' && int_text(imm as int)[0] != 'p',
        immediate_value(int_text(imm as int)) == Some(imm),
{
    reveal_strlit("-");
    let t = int_text(imm as int);
    if imm < 0 {
        let d = nat_text((-(imm as int)) as nat);
        lemma_nat_text((-(imm as int)) as nat);
        assert(t == seq!['-'] + d);
        assert(t.drop_first() =~= d);
        assert(t[0] == '-');
        assert(parse_int(t, 10, true, -32768, 32767) == Some(imm as int));
        assert forall|i: int| 0 <= i < t.len() implies !is_delimiter(#[trigger] t[i]) by {
            if i > 0 {
                assert(t[i] == d[i - 1]);
            }
        }
    } else {
        lemma_nat_text(imm as nat);
        assert(is_digit(t[0]));
        assert(parse_int(t, 10, true, -32768, 32767) == Some(imm as int));
    }
}

/// The instruction can be written as an assembly line that reads back as
/// itself: not a `nop`, its registers among those a line can name (up to
/// 96, up to 63 for a predicate), and a loop target that an immediate can
/// hold.
pub open spec fn printable(i: Instruction) -> bool {
    match i {
        Instruction::Add(d, a, b) => d <= 96 && a <= 96 && b <= 96,
        Instruction::Addi(d, a, _) => d <= 96 && a <= 96,
        Instruction::Sub(d, a, b) => d <= 96 && a <= 96 && b <= 96,
        Instruction::Mulu(d, a, b) => d <= 96 && a <= 96 && b <= 96,
        Instruction::Ld(d, _, a) => d <= 96 && a <= 96,
        Instruction::St(s, _, a) => s <= 96 && a <= 96,
        Instruction::Loop(t) => t <= 32767,
        Instruction::LoopPip(t) => t <= 32767,
        Instruction::MovP(d, _) => d <= 63,
        Instruction::MovL(_, _) => true,
        Instruction::MovI(d, _) => d <= 96,
        Instruction::Mov(d, s) => d <= 96 && s <= 96,
        Instruction::Nop => false,
    }
}

/// Appending the word `w` to a text that ends inside a word extends that
/// word.
proof fn lemma_tokens_extend(s: Seq<char>, w: Seq<char>)
    requires
        s.len() >= 1,
        !is_delimiter(s.last()),
        is_word(w),
    ensures
        tokens(s).len() >= 1,
        tokens(s + w) == tokens(s).update(tokens(s).len() - 1, tokens(s).last() + w),
    decreases w.len(),
{
    lemma_tokens_nonempty(s);
    if w.len() == 0 {
        assert(s + w =~= s);
        assert(tokens(s).last() + w =~= tokens(s).last());
        assert(tokens(s).update(tokens(s).len() - 1, tokens(s).last()) =~= tokens(s));
    } else {
        let w1 = w.drop_last();
        assert forall|i: int| 0 <= i < w1.len() implies !is_delimiter(#[trigger] w1[i]) by {
            assert(w1[i] == w[i]);
        }
        lemma_tokens_extend(s, w1);
        let sw = s + w;
        assert(sw.drop_last() =~= s + w1);
        assert(sw.last() == w.last());
        assert(!is_delimiter(w.last()));
        if w1.len() == 0 {
            assert(sw[sw.len() - 2] == s.last());
        } else {
            assert(sw[sw.len() - 2] == w1.last());
        }
        let t = tokens(s);
        let t1 = tokens(s + w1);
        assert(t1 == t.update(t.len() - 1, t.last() + w1));
        assert(t1.len() == t.len());
        assert(t1.last() == t.last() + w1);
        assert((t.last() + w1).push(w.last()) =~= t.last() + w);
        assert(t1.update(t1.len() - 1, t1.last().push(w.last()))
            =~= t.update(t.len() - 1, t.last() + w));
    }
}

/// Appending a word after a gap (or at the start) adds it as a new word.
proof fn lemma_tokens_new_word(s: Seq<char>, w: Seq<char>)
    requires
        s.len() == 0 || is_delimiter(s.last()),
        w.len() >= 1,
        is_word(w),
    ensures
        tokens(s + w) == tokens(s).push(w),
{
    lemma_tokens_concat(s, w);
    lemma_tokens_word(w);
    assert(tokens(s) + seq![w] =~= tokens(s).push(w));
}

/// A gap and then a word, appended to any text, add that word.
proof fn lemma_tokens_gap_word(s: Seq<char>, g: Seq<char>, w: Seq<char>)
    requires
        g.len() >= 1,
        is_gap(g),
        w.len() >= 1,
        is_word(w),
    ensures
        tokens(s + g + w) == tokens(s).push(w),
{
    lemma_tokens_gap(s, g);
    lemma_tokens_new_word(s + g, w);
}

/// `s + lit`, where the literal `lit` is `a + b`, is `s + a + b`.
proof fn lemma_split(s: Seq<char>, lit: Seq<char>, a: Seq<char>, b: Seq<char>)
    requires
        lit == a + b,
    ensures
        s + lit == s + a + b,
{
    vstd::seq_lib::lemma_concat_associative(s, a, b);
}

/// The words of a line that starts with a gap, the word `op`, a gap and the
/// word `w`.
proof fn lemma_tokens_head(op: Seq<char>, w: Seq<char>)
    requires
        op.len() >= 1,
        is_word(op),
        w.len() >= 1,
        is_word(w),
    ensures
        tokens(seq![' '] + op + seq![' '] + w) == seq![op, w],
{
    let sp = seq![' '];
    lemma_tokens_new_word(sp, op);
    lemma_tokens_gap(Seq::empty(), sp);
    assert(Seq::<char>::empty() + sp =~= sp);
    assert(tokens(Seq::<char>::empty()) == Seq::<Seq<char>>::empty());
    lemma_tokens_gap_word(sp + op, sp, w);
    assert(Seq::<Seq<char>>::empty().push(op).push(w) =~= seq![op, w]);
}

/// The words of a line with a gap, the word `op` and a final gap.
proof fn lemma_tokens_head_gap(op: Seq<char>)
    requires
        op.len() >= 1,
        is_word(op),
    ensures
        tokens(seq![' '] + op + seq![' ']) == seq![op],
{
    let sp = seq![' '];
    lemma_tokens_new_word(sp, op);
    lemma_tokens_gap(Seq::empty(), sp);
    assert(Seq::<char>::empty() + sp =~= sp);
    assert(tokens(Seq::<char>::empty()) == Seq::<Seq<char>>::empty());
    lemma_tokens_gap(sp + op, sp);
    assert(Seq::<Seq<char>>::empty().push(op) =~= seq![op]);
}

/// The register word `c` and number `n`.
pub open spec fn reg_word(c: char, n: u8) -> Seq<char> {
    seq![c] + nat_text(n as nat)
}

proof fn lemma_digits_word(n: nat)
    ensures
        nat_text(n).len() >= 1,
        is_word(nat_text(n)),
        !is_delimiter(nat_text(n).last()),
{
    lemma_nat_text(n);
    let d = nat_text(n);
    assert forall|i: int| 0 <= i < d.len() implies !is_delimiter(#[trigger] d[i]) by {
        assert(is_digit(d[i]));
    }
}

/// Extending the word that a text ends with by a number's digits, and then
/// adding a gap and a new word `w`.
proof fn lemma_tokens_num_then(s: Seq<char>, n: nat, g: Seq<char>, w: Seq<char>)
    requires
        s.len() >= 1,
        !is_delimiter(s.last()),
        g.len() >= 1,
        is_gap(g),
        w.len() >= 1,
        is_word(w),
    ensures
        tokens(s).len() >= 1,
        tokens(s + nat_text(n)) == tokens(s).update(tokens(s).len() - 1, tokens(s).last() + nat_text(n)),
        tokens(s + nat_text(n) + g + w)
            == tokens(s).update(tokens(s).len() - 1, tokens(s).last() + nat_text(n)).push(w),
{
    lemma_digits_word(n);
    lemma_tokens_extend(s, nat_text(n));
    lemma_tokens_gap_word(s + nat_text(n), g, w);
}

/// The words of ` <op> x<d>, x<a>, x<b>`.
proof fn lemma_tokens_reg3(lit: Seq<char>, op: Seq<char>, d: u8, a: u8, b: u8)
    requires
        op.len() >= 1,
        is_word(op),
        lit == seq![' '] + op + seq![' '] + seq!['x'],
    ensures
        tokens(lit + nat_text(d as nat) + ", x"@ + nat_text(a as nat) + ", x"@ + nat_text(b as nat))
            == seq![op, reg_word('x', d), reg_word('x', a), reg_word('x', b)],
{
    reveal_strlit(", x");
    let x = seq!['x'];
    let cs = seq![',', ' '];
    assert(", x"@ =~= cs + x);
    assert(is_word(x));
    assert(is_gap(cs));
    lemma_tokens_head(op, x);
    assert(lit.last() == 'x');
    let s1 = lit + nat_text(d as nat);
    lemma_tokens_num_then(lit, d as nat, cs, x);
    lemma_split(s1, ", x"@, cs, x);
    let t2 = seq![op, reg_word('x', d), x];
    assert(seq![op, x].update(1, x + nat_text(d as nat)).push(x) =~= t2);
    let s2 = s1 + ", x"@;
    assert(tokens(s2) == t2);
    lemma_digits_word(d as nat);
    assert(s2.last() == 'x');
    lemma_tokens_num_then(s2, a as nat, cs, x);
    let s3 = s2 + nat_text(a as nat);
    lemma_split(s3, ", x"@, cs, x);
    let t4 = seq![op, reg_word('x', d), reg_word('x', a), x];
    assert(t2.update(2, x + nat_text(a as nat)).push(x) =~= t4);
    let s4 = s3 + ", x"@;
    assert(tokens(s4) == t4);
    assert(s4.last() == 'x');
    lemma_digits_word(b as nat);
    lemma_tokens_extend(s4, nat_text(b as nat));
    assert(t4.update(3, x + nat_text(b as nat)) =~= seq![op, reg_word('x', d), reg_word('x', a), reg_word('x', b)]);
}


proof fn lemma_parse_add(d: u8, a: u8, b: u8)
    requires
        d <= 96 && a <= 96 && b <= 96,
    ensures
        parse_spec(instruction_text(Instruction::Add(d, a, b)))
            == Ok::<Instruction, Seq<char>>(Instruction::Add(d, a, b)),
{
    reveal_strlit(" add x");
    reveal_strlit("add");
    reveal_strlit("sub");
    reveal_strlit("mulu");
    let op = seq!['a', 'd', 'd'];
    assert(" add x"@ =~= seq![' '] + op + seq![' '] + seq!['x']);
    assert(is_word(op));
    lemma_tokens_reg3(" add x"@, op, d, a, b);
    lemma_register_word('x', d);
    lemma_register_word('x', a);
    lemma_register_word('x', b);
    assert(op =~= "add"@);
    assert("add"@[0] == 'a' && "sub"@[0] == 's' && "mulu"@[0] == 'm');
}

proof fn lemma_parse_sub(d: u8, a: u8, b: u8)
    requires
        d <= 96 && a <= 96 && b <= 96,
    ensures
        parse_spec(instruction_text(Instruction::Sub(d, a, b)))
            == Ok::<Instruction, Seq<char>>(Instruction::Sub(d, a, b)),
{
    reveal_strlit(" sub x");
    reveal_strlit("add");
    reveal_strlit("sub");
    reveal_strlit("mulu");
    let op = seq!['s', 'u', 'b'];
    assert(" sub x"@ =~= seq![' '] + op + seq![' '] + seq!['x']);
    assert(is_word(op));
    lemma_tokens_reg3(" sub x"@, op, d, a, b);
    lemma_register_word('x', d);
    lemma_register_word('x', a);
    lemma_register_word('x', b);
    assert(op =~= "sub"@);
    assert("add"@[0] == 'a' && "sub"@[0] == 's' && "mulu"@[0] == 'm');
}

proof fn lemma_parse_mulu(d: u8, a: u8, b: u8)
    requires
        d <= 96 && a <= 96 && b <= 96,
    ensures
        parse_spec(instruction_text(Instruction::Mulu(d, a, b)))
            == Ok::<Instruction, Seq<char>>(Instruction::Mulu(d, a, b)),
{
    reveal_strlit(" mulu x");
    reveal_strlit("add");
    reveal_strlit("sub");
    reveal_strlit("mulu");
    let op = seq!['m', 'u', 'l', 'u'];
    assert(" mulu x"@ =~= seq![' '] + op + seq![' '] + seq!['x']);
    assert(is_word(op));
    lemma_tokens_reg3(" mulu x"@, op, d, a, b);
    lemma_register_word('x', d);
    lemma_register_word('x', a);
    lemma_register_word('x', b);
    assert(op =~= "mulu"@);
    assert("add"@[0] == 'a' && "sub"@[0] == 's' && "mulu"@[0] == 'm');
}

/// The words that name instructions, special registers and predicate
/// values, character by character.
proof fn lemma_words()
    ensures
        "add"@ == seq!['a', 'd', 'd'],
        "sub"@ == seq!['s', 'u', 'b'],
        "mulu"@ == seq!['m', 'u', 'l', 'u'],
        "addi"@ == seq!['a', 'd', 'd', 'i'],
        "ld"@ == seq!['l', 'd'],
        "st"@ == seq!['s', 't'],
        "loop"@ == seq!['l', 'o', 'o', 'p'],
        "loop.pip"@ == seq!['l', 'o', 'o', 'p', '.', 'p', 'i', 'p'],
        "mov"@ == seq!['m', 'o', 'v'],
        "LC"@ == seq!['L', 'C'],
        "EC"@ == seq!['E', 'C'],
        "true"@ == seq!['t', 'r', 'u', 'e'],
        "false"@ == seq!['f', 'a', 'l', 's', 'e'],
{
    reveal_strlit("add");
    reveal_strlit("sub");
    reveal_strlit("mulu");
    reveal_strlit("addi");
    reveal_strlit("ld");
    reveal_strlit("st");
    reveal_strlit("loop");
    reveal_strlit("loop.pip");
    reveal_strlit("mov");
    reveal_strlit("LC");
    reveal_strlit("EC");
    reveal_strlit("true");
    reveal_strlit("false");
}

proof fn lemma_parse_addi(d: u8, a: u8, imm: i16)
    requires
        d <= 96 && a <= 96,
    ensures
        parse_spec(instruction_text(Instruction::Addi(d, a, imm))) == Ok::<Instruction, Seq<char>>(Instruction::Addi(d, a, imm)),
{
    lemma_words();
    reveal_strlit(" addi x");
    reveal_strlit(", x");
    reveal_strlit(", ");
    let op = seq!['a', 'd', 'd', 'i'];
    let x = seq!['x'];
    let cs = seq![',', ' '];
    assert(" addi x"@ =~= seq![' '] + op + seq![' '] + x);
    assert(", x"@ =~= cs + x);
    assert(", "@ =~= cs);
    assert(is_word(op) && is_word(x) && is_gap(cs));
    lemma_register_word('x', d);
    lemma_register_word('x', a);
    lemma_immediate_word(imm);
    let lit = " addi x"@;
    lemma_tokens_head(op, x);
    lemma_tokens_num_then(lit, d as nat, cs, x);
    let s1 = lit + nat_text(d as nat);
    lemma_split(s1, ", x"@, cs, x);
    let s2 = s1 + ", x"@;
    let t2 = seq![op, reg_word('x', d), x];
    assert(seq![op, x].update(1, x + nat_text(d as nat)).push(x) =~= t2);
    assert(s2.last() == 'x');
    let w = int_text(imm as int);
    lemma_tokens_num_then(s2, a as nat, cs, w);
    assert(t2.update(2, x + nat_text(a as nat)).push(w) =~= seq![op, reg_word('x', d), reg_word('x', a), w]);
}

proof fn lemma_parse_ld(r: u8, imm: i16, a: u8)
    requires
        r <= 96 && a <= 96,
    ensures
        parse_spec(instruction_text(Instruction::Ld(r, imm, a))) == Ok::<Instruction, Seq<char>>(Instruction::Ld(r, imm, a)),
{
    lemma_words();
    reveal_strlit(" ld x");
    reveal_strlit(", ");
    reveal_strlit("(x");
    reveal_strlit(")");
    let op = seq!['l', 'd'];
    let x = seq!['x'];
    let cs = seq![',', ' '];
    let po = seq!['('];
    let pc = seq![')'];
    assert(" ld x"@ =~= seq![' '] + op + seq![' '] + x);
    assert(", "@ =~= cs);
    assert("(x"@ =~= po + x);
    assert(")"@ =~= pc);
    assert(is_word(op) && is_word(x) && is_gap(cs) && is_gap(po) && is_gap(pc));
    lemma_register_word('x', r);
    lemma_register_word('x', a);
    lemma_immediate_word(imm);
    let lit = " ld x"@;
    let w = int_text(imm as int);
    lemma_tokens_head(op, x);
    lemma_tokens_num_then(lit, r as nat, cs, w);
    let s1 = lit + nat_text(r as nat);
    let s2 = s1 + ", "@ + w;
    let t2 = seq![op, reg_word('x', r), w];
    assert(seq![op, x].update(1, x + nat_text(r as nat)).push(w) =~= t2);
    assert(tokens(s2) == t2);
    lemma_split(s2, "(x"@, po, x);
    lemma_tokens_gap_word(s2, po, x);
    let s3 = s2 + "(x"@;
    let t3 = t2.push(x);
    assert(tokens(s3) == t3);
    assert(s3.last() == 'x');
    lemma_digits_word(a as nat);
    lemma_tokens_extend(s3, nat_text(a as nat));
    let s4 = s3 + nat_text(a as nat);
    let t4 = seq![op, reg_word('x', r), w, reg_word('x', a)];
    assert(t3.update(3, x + nat_text(a as nat)) =~= t4);
    lemma_tokens_gap(s4, pc);
}

proof fn lemma_parse_st(r: u8, imm: i16, a: u8)
    requires
        r <= 96 && a <= 96,
    ensures
        parse_spec(instruction_text(Instruction::St(r, imm, a))) == Ok::<Instruction, Seq<char>>(Instruction::St(r, imm, a)),
{
    lemma_words();
    reveal_strlit(" st x");
    reveal_strlit(", ");
    reveal_strlit("(x");
    reveal_strlit(")");
    let op = seq!['s', 't'];
    let x = seq!['x'];
    let cs = seq![',', ' '];
    let po = seq!['('];
    let pc = seq![')'];
    assert(" st x"@ =~= seq![' '] + op + seq![' '] + x);
    assert(", "@ =~= cs);
    assert("(x"@ =~= po + x);
    assert(")"@ =~= pc);
    assert(is_word(op) && is_word(x) && is_gap(cs) && is_gap(po) && is_gap(pc));
    lemma_register_word('x', r);
    lemma_register_word('x', a);
    lemma_immediate_word(imm);
    let lit = " st x"@;
    let w = int_text(imm as int);
    lemma_tokens_head(op, x);
    lemma_tokens_num_then(lit, r as nat, cs, w);
    let s1 = lit + nat_text(r as nat);
    let s2 = s1 + ", "@ + w;
    let t2 = seq![op, reg_word('x', r), w];
    assert(seq![op, x].update(1, x + nat_text(r as nat)).push(w) =~= t2);
    assert(tokens(s2) == t2);
    lemma_split(s2, "(x"@, po, x);
    lemma_tokens_gap_word(s2, po, x);
    let s3 = s2 + "(x"@;
    let t3 = t2.push(x);
    assert(tokens(s3) == t3);
    assert(s3.last() == 'x');
    lemma_digits_word(a as nat);
    lemma_tokens_extend(s3, nat_text(a as nat));
    let s4 = s3 + nat_text(a as nat);
    let t4 = seq![op, reg_word('x', r), w, reg_word('x', a)];
    assert(t3.update(3, x + nat_text(a as nat)) =~= t4);
    lemma_tokens_gap(s4, pc);
}

proof fn lemma_parse_loop(t: usize)
    requires
        t <= 32767,
    ensures
        parse_spec(instruction_text(Instruction::Loop(t))) == Ok::<Instruction, Seq<char>>(Instruction::Loop(t)),
{
    lemma_words();
    reveal_strlit(" loop ");
    let op = seq!['l', 'o', 'o', 'p'];
    let sp = seq![' '];
    assert(" loop "@ =~= sp + op + sp);
    assert(is_word(op));
    lemma_tokens_head_gap(op);
    let imm = t as i16;
    assert(imm as int == t as int);
    lemma_immediate_word(imm);
    assert(int_text(imm as int) == nat_text(t as nat));
    lemma_tokens_new_word(" loop "@, nat_text(t as nat));
    assert(seq![op].push(nat_text(t as nat)) =~= seq![op, nat_text(t as nat)]);
    assert((imm as usize) == t);
}

proof fn lemma_parse_loop_pip(t: usize)
    requires
        t <= 32767,
    ensures
        parse_spec(instruction_text(Instruction::LoopPip(t))) == Ok::<Instruction, Seq<char>>(Instruction::LoopPip(t)),
{
    lemma_words();
    reveal_strlit(" loop.pip ");
    let op = seq!['l', 'o', 'o', 'p', '.', 'p', 'i', 'p'];
    let sp = seq![' '];
    assert(" loop.pip "@ =~= sp + op + sp);
    assert(is_word(op));
    lemma_tokens_head_gap(op);
    let imm = t as i16;
    assert(imm as int == t as int);
    lemma_immediate_word(imm);
    assert(int_text(imm as int) == nat_text(t as nat));
    lemma_tokens_new_word(" loop.pip "@, nat_text(t as nat));
    assert(seq![op].push(nat_text(t as nat)) =~= seq![op, nat_text(t as nat)]);
    assert((imm as usize) == t);
}


proof fn lemma_parse_movp(d: u8, v: bool)
    requires
        d <= 63,
    ensures
        parse_spec(instruction_text(Instruction::MovP(d, v))) == Ok::<Instruction, Seq<char>>(Instruction::MovP(d, v)),
{
    lemma_words();
    reveal_strlit(" mov p");
    reveal_strlit(", ");
    let op = seq!['m', 'o', 'v'];
    let pw = seq!['p'];
    let cs = seq![',', ' '];
    assert(" mov p"@ =~= seq![' '] + op + seq![' '] + pw);
    assert(", "@ =~= cs);
    assert(is_word(op) && is_word(pw) && is_gap(cs));
    assert(d & 63u8 == d) by (bit_vector)
        requires d <= 63;
    lemma_register_word('p', d);
    let w = bool_text(v);
    assert(w.len() >= 1 && is_word(w));
    let lit = " mov p"@;
    lemma_tokens_head(op, pw);
    lemma_tokens_num_then(lit, d as nat, cs, w);
    assert(seq![op, pw].update(1, pw + nat_text(d as nat)).push(w) =~= seq![op, reg_word('p', d), w]);
    assert(reg_word('p', d)[0] == 'p');
}

proof fn lemma_parse_movl(r: SpecialRegister, imm: i16)
    ensures
        parse_spec(instruction_text(Instruction::MovL(r, imm))) == Ok::<Instruction, Seq<char>>(Instruction::MovL(r, imm)),
{
    lemma_words();
    reveal_strlit(" mov ");
    reveal_strlit(", ");
    let op = seq!['m', 'o', 'v'];
    let sp = seq![' '];
    let cs = seq![',', ' '];
    assert(" mov "@ =~= sp + op + sp);
    assert(", "@ =~= cs);
    assert(is_word(op) && is_gap(cs));
    let rt = special_register_text(r);
    assert(rt.len() == 2 && is_word(rt));
    lemma_immediate_word(imm);
    let w = int_text(imm as int);
    lemma_tokens_head_gap(op);
    lemma_tokens_new_word(" mov "@, rt);
    lemma_tokens_gap_word(" mov "@ + rt, cs, w);
    assert(seq![op].push(rt).push(w) =~= seq![op, rt, w]);
}

proof fn lemma_parse_movi(d: u8, imm: i16)
    requires
        d <= 96,
    ensures
        parse_spec(instruction_text(Instruction::MovI(d, imm))) == Ok::<Instruction, Seq<char>>(Instruction::MovI(d, imm)),
{
    lemma_words();
    reveal_strlit(" mov x");
    reveal_strlit(", ");
    let op = seq!['m', 'o', 'v'];
    let x = seq!['x'];
    let cs = seq![',', ' '];
    assert(" mov x"@ =~= seq![' '] + op + seq![' '] + x);
    assert(", "@ =~= cs);
    assert(is_word(op) && is_word(x) && is_gap(cs));
    lemma_register_word('x', d);
    lemma_immediate_word(imm);
    let w = int_text(imm as int);
    let lit = " mov x"@;
    lemma_tokens_head(op, x);
    lemma_tokens_num_then(lit, d as nat, cs, w);
    assert(seq![op, x].update(1, x + nat_text(d as nat)).push(w) =~= seq![op, reg_word('x', d), w]);
    assert(reg_word('x', d)[0] == 'x');
}

proof fn lemma_parse_mov(d: u8, r: u8)
    requires
        d <= 96 && r <= 96,
    ensures
        parse_spec(instruction_text(Instruction::Mov(d, r))) == Ok::<Instruction, Seq<char>>(Instruction::Mov(d, r)),
{
    lemma_words();
    reveal_strlit(" mov x");
    reveal_strlit(", x");
    let op = seq!['m', 'o', 'v'];
    let x = seq!['x'];
    let cs = seq![',', ' '];
    assert(" mov x"@ =~= seq![' '] + op + seq![' '] + x);
    assert(", x"@ =~= cs + x);
    assert(is_word(op) && is_word(x) && is_gap(cs));
    lemma_register_word('x', d);
    lemma_register_word('x', r);
    let lit = " mov x"@;
    lemma_tokens_head(op, x);
    lemma_tokens_num_then(lit, d as nat, cs, x);
    let s1 = lit + nat_text(d as nat);
    lemma_split(s1, ", x"@, cs, x);
    let s2 = s1 + ", x"@;
    let t2 = seq![op, reg_word('x', d), x];
    assert(seq![op, x].update(1, x + nat_text(d as nat)).push(x) =~= t2);
    assert(s2.last() == 'x');
    lemma_digits_word(r as nat);
    lemma_tokens_extend(s2, nat_text(r as nat));
    assert(t2.update(2, x + nat_text(r as nat)) =~= seq![op, reg_word('x', d), reg_word('x', r)]);
    assert(reg_word('x', d)[0] == 'x');
    assert(reg_word('x', r)[0] == 'x');
}

/// Parsing the assembly line of a printable instruction gives the
/// instruction back: `parse_instruction` undoes `Instruction::to_string`.
pub proof fn lemma_parse_undoes_print(i: Instruction)
    requires
        printable(i),
    ensures
        parse_spec(instruction_text(i)) == Ok::<Instruction, Seq<char>>(i),
{
    match i {
        Instruction::Add(d, a, b) => lemma_parse_add(d, a, b),
        Instruction::Addi(d, a, imm) => lemma_parse_addi(d, a, imm),
        Instruction::Sub(d, a, b) => lemma_parse_sub(d, a, b),
        Instruction::Mulu(d, a, b) => lemma_parse_mulu(d, a, b),
        Instruction::Ld(r, imm, a) => lemma_parse_ld(r, imm, a),
        Instruction::St(r, imm, a) => lemma_parse_st(r, imm, a),
        Instruction::Loop(t) => lemma_parse_loop(t),
        Instruction::LoopPip(t) => lemma_parse_loop_pip(t),
        Instruction::MovP(d, v) => lemma_parse_movp(d, v),
        Instruction::MovL(r, imm) => lemma_parse_movl(r, imm),
        Instruction::MovI(d, imm) => lemma_parse_movi(d, imm),
        Instruction::Mov(d, r) => lemma_parse_mov(d, r),
        Instruction::Nop => {},
    }
}

/// The hexadecimal digits in order of value, in lower or upper case.
pub open spec fn hex_digits(upper: bool) -> Seq<char> {
    if upper { "0123456789ABCDEF"@ } else { "0123456789abcdef"@ }
}

/// The hexadecimal text of a number, without leading zeros.
pub open spec fn hex_text(n: nat, upper: bool) -> Seq<char>
    decreases n,
{
    if n < 16 {
        seq![hex_digits(upper)[n as int]]
    } else {
        hex_text(n / 16, upper).push(hex_digits(upper)[(n % 16) as int])
    }
}

/// A hexadecimal digit is worth its position among `0`-`9`, `a`-`f` (or
/// `A`-`F`).
pub proof fn lemma_hex_digit_value(d: nat, upper: bool)
    requires
        d < 16,
    ensures
        hex_digits(upper).len() == 16,
        digit_value(hex_digits(upper)[d as int], 16) == Some(d),
        hex_digits(upper)[d as int] != 'x' && hex_digits(upper)[d as int] != '+' && hex_digits(upper)[d as int] != '-',
        digit_value(hex_digits(upper)[d as int], 10) is Some <==> d < 10,
{
    reveal_strlit("0123456789ABCDEF");
    reveal_strlit("0123456789abcdef");
}

/// The hexadecimal text of a number reads back as the number.
pub proof fn lemma_hex_text(n: nat, upper: bool)
    ensures
        hex_text(n, upper).len() >= 1,
        forall|i: int| 0 <= i < hex_text(n, upper).len() ==> {
            let c = #[trigger] hex_text(n, upper)[i];
            c != 'x' && c != '+' && c != '-'
        },
        digits_value(hex_text(n, upper), 16) == Some(n),
    decreases n,
{
    if n < 16 {
        lemma_hex_digit_value(n, upper);
        let s = hex_text(n, upper);
        assert(s.drop_last() =~= Seq::<char>::empty());
        assert(digits_value(s.drop_last(), 16) == Some(0nat));
        assert(digits_value(s, 16) == Some(0nat * 16 + n));
    } else {
        lemma_hex_text(n / 16, upper);
        lemma_hex_digit_value(n % 16, upper);
        let a = hex_text(n / 16, upper);
        let s = hex_text(n, upper);
        assert(s.drop_last() =~= a);
        assert forall|i: int| 0 <= i < s.len() implies {
            let c = #[trigger] s[i];
            c != 'x' && c != '+' && c != '-'
        } by {
            if i < a.len() {
                assert(s[i] == a[i]);
            }
        }
        assert((n / 16) * 16 + n % 16 == n) by (nonlinear_arith);
        assert(digits_value(s, 16) == Some((n / 16) * 16 + n % 16));
    }
}

/// A character that is no digit in base `r` makes the whole text no number.
proof fn lemma_digits_none(s: Seq<char>, r: nat, i: int)
    requires
        0 <= i < s.len(),
        digit_value(s[i], r) is None,
    ensures
        digits_value(s, r) is None,
    decreases s.len(),
{
    if i < s.len() - 1 {
        assert(s.drop_last()[i] == s[i]);
        lemma_digits_none(s.drop_last(), r, i);
    }
}

/// An immediate written as `0x` and the hexadecimal text of a number reads
/// as that number.
pub proof fn lemma_hex_immediate(n: nat, upper: bool)
    requires
        n <= 32767,
    ensures
        immediate_value(seq!['0', 'x'] + hex_text(n, upper)) == Some(n as i16),
{
    let h = hex_text(n, upper);
    let t = seq!['0', 'x'] + h;
    lemma_hex_text(n, upper);
    assert(digit_value(t[1], 10) is None);
    lemma_digits_none(t, 10, 1);
    assert(parse_int(t, 10, true, -32768, 32767) is None);
    assert(t.subrange(2, t.len() as int) =~= h);
    assert(h[0] != 'x' && h[0] != '+' && h[0] != '-');
    if h.len() >= 2 {
        assert(h[1] != 'x');
    }
    assert(strip_hex_prefix(h) == h);
    assert(strip_hex_prefix(t) == h);
    assert(parse_int(h, 16, true, -32768, 32767) == Some(n as int));
}

/// A `mov` of an immediate written in hexadecimal reads back with the
/// immediate's standard value: ` mov x<d>, 0x<hex of n>` is `MovI(d, n)`.
pub proof fn lemma_parse_mov_hex(d: u8, n: nat, upper: bool)
    requires
        d <= 96,
        n <= 32767,
    ensures
        parse_spec(" mov x"@ + nat_text(d as nat) + ", "@ + (seq!['0', 'x'] + hex_text(n, upper)))
            == Ok::<Instruction, Seq<char>>(Instruction::MovI(d, n as i16)),
{
    lemma_words();
    reveal_strlit(" mov x");
    reveal_strlit(", ");
    let op = seq!['m', 'o', 'v'];
    let x = seq!['x'];
    let cs = seq![',', ' '];
    assert(" mov x"@ =~= seq![' '] + op + seq![' '] + x);
    assert(", "@ =~= cs);
    assert(is_word(op) && is_word(x) && is_gap(cs));
    lemma_register_word('x', d);
    lemma_hex_immediate(n, upper);
    lemma_hex_text(n, upper);
    let w = seq!['0', 'x'] + hex_text(n, upper);
    assert forall|i: int| 0 <= i < w.len() implies !is_delimiter(#[trigger] w[i]) by {
        if i >= 2 {
            assert(w[i] == hex_text(n, upper)[i - 2]);
            lemma_hex_char(hex_text(n, upper), n, upper, i - 2);
        }
    }
    let lit = " mov x"@;
    lemma_tokens_head(op, x);
    lemma_tokens_num_then(lit, d as nat, cs, w);
    assert(seq![op, x].update(1, x + nat_text(d as nat)).push(w) =~= seq![op, reg_word('x', d), w]);
    assert(reg_word('x', d)[0] == 'x');
    assert(w[0] == '0');
}

/// The characters of a hexadecimal text are hexadecimal digits, which
/// separate no words.
proof fn lemma_hex_char(h: Seq<char>, n: nat, upper: bool, i: int)
    requires
        h == hex_text(n, upper),
        0 <= i < h.len(),
    ensures
        !is_delimiter(h[i]),
    decreases n,
{
    reveal_strlit("0123456789ABCDEF");
    reveal_strlit("0123456789abcdef");
    if n >= 16 {
        let a = hex_text(n / 16, upper);
        if i < a.len() {
            assert(h[i] == a[i]);
            lemma_hex_char(a, n / 16, upper, i);
        }
    }
}

} // verus!
