//! The text the tool reads and writes: instruction strings picked out of the
//! input listing, and the bundle listings it produces.
use vstd::prelude::*;
use crate::instruction::{PredicatedInstruction, VLIW, predicated_text, bundle_text};
use crate::parser::chars_of;

verus! {

/// The characters that separate the strings of a listing line.
pub open spec fn is_separator(c: char) -> bool {
    c == '"' || c == '[' || c == ']'
}

/// Unicode white space, as `char::is_whitespace` documents it.
pub open spec fn is_white_space(c: char) -> bool {
    let v = c as u32;
    (0x9 <= v <= 0xd) || v == 0x20 || v == 0x85 || v == 0xa0 || v == 0x1680
        || (0x2000 <= v <= 0x200a) || v == 0x2028 || v == 0x2029 || v == 0x202f
        || v == 0x205f || v == 0x3000
}

/// The number of bytes of a character in UTF-8.
pub open spec fn utf8_len(c: char) -> nat {
    let v = c as u32;
    if v < 0x80 { 1 } else if v < 0x800 { 2 } else if v < 0x10000 { 3 } else { 4 }
}

/// The number of bytes of a text in UTF-8.
pub open spec fn utf8_size(s: Seq<char>) -> nat
    decreases s.len(),
{
    if s.len() == 0 { 0 } else { utf8_size(s.drop_last()) + utf8_len(s.last()) }
}

/// The pieces of a line between separators, empty ones included.
pub open spec fn pieces(s: Seq<char>) -> Seq<Seq<char>>
    decreases s.len(),
{
    if s.len() == 0 {
        seq![Seq::<char>::empty()]
    } else if is_separator(s.last()) {
        pieces(s.drop_last()).push(Seq::<char>::empty())
    } else {
        let p = pieces(s.drop_last());
        p.update(p.len() - 1, p.last().push(s.last()))
    }
}

/// The number of leading white-space characters of a text.
pub open spec fn leading_space(s: Seq<char>) -> nat
    decreases s.len(),
{
    if s.len() == 0 || !is_white_space(s[0]) { 0 } else { 1 + leading_space(s.drop_first()) }
}

/// The number of trailing white-space characters of a text.
pub open spec fn trailing_space(s: Seq<char>) -> nat
    decreases s.len(),
{
    if s.len() == 0 || !is_white_space(s.last()) { 0 } else { 1 + trailing_space(s.drop_last()) }
}

/// A text without its leading and trailing white space.
pub open spec fn trimmed(s: Seq<char>) -> Seq<char> {
    if leading_space(s) == s.len() {
        Seq::<char>::empty()
    } else {
        s.subrange(leading_space(s) as int, s.len() - trailing_space(s))
    }
}

/// The strings kept from the pieces `ps`: each piece that is more than one
/// byte long and not only white space, trimmed.
pub open spec fn kept_strings(ps: Seq<Seq<char>>) -> Seq<Seq<char>>
    decreases ps.len(),
{
    if ps.len() == 0 {
        seq![]
    } else {
        let p = ps.last();
        let rest = kept_strings(ps.drop_last());
        if trimmed(p).len() > 0 && utf8_size(p) > 1 { rest.push(trimmed(p)) } else { rest }
    }
}

proof fn lemma_leading_space(s: Seq<char>)
    ensures
        leading_space(s) <= s.len(),
        forall|i: int| 0 <= i < leading_space(s) ==> is_white_space(#[trigger] s[i]),
        leading_space(s) < s.len() ==> !is_white_space(s[leading_space(s) as int]),
    decreases s.len(),
{
    if s.len() > 0 && is_white_space(s[0]) {
        lemma_leading_space(s.drop_first());
        assert forall|i: int| 0 <= i < leading_space(s) implies is_white_space(#[trigger] s[i]) by {
            if i > 0 {
                assert(s[i] == s.drop_first()[i - 1]);
            }
        }
        if leading_space(s) < s.len() {
            assert(s[leading_space(s) as int] == s.drop_first()[leading_space(s.drop_first()) as int]);
        }
    }
}

proof fn lemma_leading_space_from(s: Seq<char>, k: int)
    requires
        0 <= k <= s.len(),
        forall|i: int| 0 <= i < k ==> is_white_space(#[trigger] s[i]),
        k == s.len() || !is_white_space(s[k]),
    ensures
        leading_space(s) == k,
    decreases s.len(),
{
    if k > 0 {
        lemma_leading_space_from(s.drop_first(), k - 1);
    }
}

proof fn lemma_trailing_space_from(s: Seq<char>, k: int)
    requires
        0 <= k <= s.len(),
        forall|i: int| s.len() - k <= i < s.len() ==> is_white_space(#[trigger] s[i]),
        k == s.len() || !is_white_space(s[s.len() - k - 1]),
    ensures
        trailing_space(s) == k,
    decreases s.len(),
{
    if k > 0 {
        lemma_trailing_space_from(s.drop_last(), k - 1);
    }
}

fn white_space(c: char) -> (r: bool)
    ensures
        r == is_white_space(c),
{
    let v = c as u32;
    (0x9 <= v && v <= 0xd) || v == 0x20 || v == 0x85 || v == 0xa0 || v == 0x1680
        || (0x2000 <= v && v <= 0x200a) || v == 0x2028 || v == 0x2029 || v == 0x202f
        || v == 0x205f || v == 0x3000
}

fn char_utf8_len(c: char) -> (r: usize)
    ensures
        r == utf8_len(c),
{
    let v = c as u32;
    if v < 0x80 { 1 } else if v < 0x800 { 2 } else if v < 0x10000 { 3 } else { 4 }
}

/// Adds to `out` the piece `line[a..b]` when it is kept.
fn keep_piece(line: &str, chars: &Vec<char>, a: usize, b: usize, out: &mut Vec<String>)
    requires
        chars@ == line@,
        a <= b <= chars@.len(),
    ensures
        final(out)@.len() == old(out)@.len() + (if trimmed(line@.subrange(a as int, b as int)).len() > 0
            && utf8_size(line@.subrange(a as int, b as int)) > 1 { 1int } else { 0int }),
        forall|i: int| 0 <= i < old(out)@.len() ==> #[trigger] final(out)@[i]@ == old(out)@[i]@,
        trimmed(line@.subrange(a as int, b as int)).len() > 0 && utf8_size(line@.subrange(a as int, b as int)) > 1
            ==> final(out)@[old(out)@.len() as int]@ == trimmed(line@.subrange(a as int, b as int)),
{
    let ghost p = line@.subrange(a as int, b as int);
    let mut lo = a;
    while lo < b && white_space(chars[lo])
        invariant
            a <= lo <= b <= chars@.len(),
            chars@ == line@,
            p == line@.subrange(a as int, b as int),
            forall|i: int| 0 <= i < lo - a ==> is_white_space(#[trigger] p[i]),
        decreases b - lo,
    {
        lo = lo + 1;
    }
    proof {
        lemma_leading_space_from(p, lo - a);
    }
    if lo == b {
        return;
    }
    let mut hi = b;
    while hi > lo && white_space(chars[hi - 1])
        invariant
            a <= lo < b <= chars@.len(),
            lo <= hi <= b,
            chars@ == line@,
            p == line@.subrange(a as int, b as int),
            forall|i: int| hi - a <= i < b - a ==> is_white_space(#[trigger] p[i]),
        decreases hi - lo,
    {
        hi = hi - 1;
    }
    proof {
        assert(!is_white_space(p[lo - a]));
        assert(hi > lo);
        lemma_trailing_space_from(p, b - hi);
        assert(trimmed(p) =~= line@.subrange(lo as int, hi as int));
    }
    let mut size: usize = 0;
    let mut i = a;
    while i < b && size <= 1
        invariant
            a <= i <= b <= chars@.len(),
            chars@ == line@,
            p == line@.subrange(a as int, b as int),
            size == utf8_size(p.take(i - a)),
        decreases b - i,
    {
        proof {
            assert(p.take(i - a + 1).drop_last() =~= p.take(i - a));
        }
        size = size + char_utf8_len(chars[i]);
        i = i + 1;
    }
    proof {
        lemma_utf8_size_mono(p, i - a);
        if i == b {
            assert(p.take(i - a) =~= p);
        }
    }
    if size > 1 {
        let piece = line.substring_char(lo, hi);
        out.push(String::from_str(piece));
    }
}

proof fn lemma_utf8_size_mono(p: Seq<char>, k: int)
    requires
        0 <= k <= p.len(),
    ensures
        utf8_size(p.take(k)) <= utf8_size(p),
    decreases p.len() - k,
{
    if k < p.len() {
        lemma_utf8_size_mono(p, k + 1);
        assert(p.take(k + 1).drop_last() =~= p.take(k));
    } else {
        assert(p.take(k) =~= p);
    }
}

/// The instruction strings of one line of the input listing: the pieces
/// between double quotes and square brackets that are more than one byte long
/// and not only white space, trimmed.
pub fn extract_strings(line: &str) -> (r: Vec<String>)
    ensures
        r@.len() == kept_strings(pieces(line@)).len(),
        forall|i: int| 0 <= i < r@.len() ==> #[trigger] r@[i]@ == kept_strings(pieces(line@))[i],
{
    let chars = chars_of(line);
    let ghost s = line@;
    let mut out: Vec<String> = Vec::new();
    let mut a: usize = 0;
    let mut i: usize = 0;
    let ghost mut done: Seq<Seq<char>> = seq![];
    proof {
        assert(s.take(0) =~= Seq::<char>::empty());
    }
    while i < chars.len()
        invariant
            chars@ == s,
            s == line@,
            a <= i <= s.len(),
            pieces(s.take(i as int)) == done.push(s.subrange(a as int, i as int)),
            out@.len() == kept_strings(done).len(),
            forall|k: int| 0 <= k < out@.len() ==> #[trigger] out@[k]@ == kept_strings(done)[k],
        decreases chars.len() - i,
    {
        let c = chars[i];
        proof {
            assert(s.take(i + 1).drop_last() =~= s.take(i as int));
            assert(s.take(i + 1).last() == c);
        }
        if c == '"' || c == '[' || c == ']' {
            let ghost before = out@;
            keep_piece(line, &chars, a, i, &mut out);
            proof {
                let piece = s.subrange(a as int, i as int);
                let nd = done.push(piece);
                assert(nd.drop_last() =~= done);
                assert(nd.last() == piece);
                assert forall|k: int| 0 <= k < out@.len() implies #[trigger] out@[k]@ == kept_strings(nd)[k] by {
                    if k < before.len() {
                        assert(out@[k]@ == before[k]@);
                    }
                }
                done = nd;
                assert(s.subrange((i + 1) as int, (i + 1) as int) =~= Seq::<char>::empty());
            }
            a = i + 1;
        } else {
            proof {
                assert(s.subrange(a as int, i + 1) =~= s.subrange(a as int, i as int).push(c));
                let p = done.push(s.subrange(a as int, i as int));
                assert(p.update(p.len() - 1, p.last().push(c)) =~= done.push(s.subrange(a as int, i + 1)));
            }
        }
        i = i + 1;
    }
    let ghost before = out@;
    keep_piece(line, &chars, a, i, &mut out);
    proof {
        assert(s.take(i as int) =~= s);
        let piece = s.subrange(a as int, i as int);
        let nd = done.push(piece);
        assert(nd.drop_last() =~= done);
        assert forall|k: int| 0 <= k < out@.len() implies #[trigger] out@[k]@ == kept_strings(nd)[k] by {
            if k < before.len() {
                assert(out@[k]@ == before[k]@);
            }
        }
    }
    out
}

/// Items joined with `",\n"` between them.
pub open spec fn joined_lines(items: Seq<Seq<char>>) -> Seq<char>
    decreases items.len(),
{
    if items.len() == 0 {
        seq![]
    } else if items.len() == 1 {
        items[0]
    } else {
        joined_lines(items.drop_last()) + ",\n"@ + items.last()
    }
}

/// The listing of the bundles of the non-pipelined schedule: one bundle per
/// line, indented by a tab, between square brackets.
pub open spec fn schedule_listing(bundles: Seq<VLIW>) -> Seq<char> {
    "[\n"@ + joined_lines(Seq::new(bundles.len(), |i: int| "\t"@ + bundle_text(bundles[i]@))) + "\n]\n"@
}

/// Writes the listing of the non-pipelined schedule.
pub fn schedule_text(bundles: &Vec<VLIW>) -> (r: String)
    ensures
        r@ == schedule_listing(bundles@),
{
    let mut out = String::from_str("[\n");
    let mut i: usize = 0;
    while i < bundles.len()
        invariant
            i <= bundles@.len(),
            out@ == "[\n"@ + joined_lines(Seq::new(i as nat, |k: int| "\t"@ + bundle_text(bundles@[k]@))),
        decreases bundles.len() - i,
    {
        if i > 0 {
            out.append(",\n");
        }
        out.append("\t");
        let t = bundles[i].to_string();
        out.append(t.as_str());
        proof {
            let f = |k: int| "\t"@ + bundle_text(bundles@[k]@);
            let next = Seq::new((i + 1) as nat, f);
            assert(next.drop_last() =~= Seq::new(i as nat, f));
            if i == 0 {
                assert(joined_lines(next) == next[0]);
            }
        }
        i = i + 1;
    }
    out.append("\n]\n");
    out
}

/// The text of a predicated bundle: its five slots, each quoted, separated by
/// `", "`, between square brackets.
#[verifier::opaque]
pub open spec fn predicated_bundle_text(b: Seq<PredicatedInstruction>) -> Seq<char> {
    "["@ + "\""@ + predicated_text(b[0]) + "\""@ + ", "@ + "\""@ + predicated_text(b[1]) + "\""@
        + ", "@ + "\""@ + predicated_text(b[2]) + "\""@ + ", "@ + "\""@ + predicated_text(b[3]) + "\""@
        + ", "@ + "\""@ + predicated_text(b[4]) + "\""@ + "]"@
}

/// The listing of the pipelined program: one bundle per line, indented by a
/// tab, between square brackets.
pub open spec fn pipelined_listing(bundles: Seq<[PredicatedInstruction; 5]>) -> Seq<char> {
    "[\n"@ + joined_lines(Seq::new(bundles.len(), |i: int| "\t"@ + predicated_bundle_text(bundles[i]@))) + "\n]\n"@
}

fn push_quoted(out: &mut String, p: &PredicatedInstruction)
    ensures
        final(out)@ == old(out)@ + "\""@ + predicated_text(*p) + "\""@,
{
    out.append("\"");
    let t = p.to_string();
    out.append(t.as_str());
    out.append("\"");
}

fn predicated_bundle_string(b: &[PredicatedInstruction; 5]) -> (r: String)
    ensures
        r@ == predicated_bundle_text(b@),
{
    let mut out = String::from_str("[");
    push_quoted(&mut out, &b[0]);
    out.append(", ");
    push_quoted(&mut out, &b[1]);
    out.append(", ");
    push_quoted(&mut out, &b[2]);
    out.append(", ");
    push_quoted(&mut out, &b[3]);
    out.append(", ");
    push_quoted(&mut out, &b[4]);
    out.append("]");
    proof {
        reveal(predicated_bundle_text);
        assert(out@ =~= predicated_bundle_text(b@));
    }
    out
}

/// Writes the listing of the pipelined program.
pub fn pipelined_text(bundles: &Vec<[PredicatedInstruction; 5]>) -> (r: String)
    ensures
        r@ == pipelined_listing(bundles@),
{
    let mut out = String::from_str("[\n");
    let mut i: usize = 0;
    while i < bundles.len()
        invariant
            i <= bundles@.len(),
            out@ == "[\n"@ + joined_lines(Seq::new(i as nat, |k: int| "\t"@ + predicated_bundle_text(bundles@[k]@))),
        decreases bundles.len() - i,
    {
        if i > 0 {
            out.append(",\n");
        }
        out.append("\t");
        let t = predicated_bundle_string(&bundles[i]);
        out.append(t.as_str());
        proof {
            let f = |k: int| "\t"@ + predicated_bundle_text(bundles@[k]@);
            let next = Seq::new((i + 1) as nat, f);
            assert(next.drop_last() =~= Seq::new(i as nat, f));
            if i == 0 {
                assert(joined_lines(next) == next[0]);
            }
        }
        i = i + 1;
    }
    out.append("\n]\n");
    out
}

} // verus!
