//! The durable textual form of a board: a JSON array of rows, each row an
//! array of `{"orbs":<n>,"owner":<null or color name>}` objects, with no
//! whitespace. This is the persisted interchange form other processes read,
//! so serialization is pinned to an exact character sequence and
//! deserialization accepts exactly the strings serialization produces.

use vstd::prelude::*;
use vstd::string::StringSliceAdditionalSpecFns;

use crate::board::Board;
use crate::board::BoardM;
use crate::board::Cell;
use crate::board::MAX_DIM;
use crate::board::PALETTE_SIZE;
use crate::board::cell_wf;

verus! {

/// The fixed eight-entry color palette, as the names that appear in the
/// serialized form.
pub open spec fn spec_color_name(c: int) -> Seq<char> {
    if c == 0 {
        "red"@
    } else if c == 1 {
        "blue"@
    } else if c == 2 {
        "green"@
    } else if c == 3 {
        "yellow"@
    } else if c == 4 {
        "purple"@
    } else if c == 5 {
        "orange"@
    } else if c == 6 {
        "pink"@
    } else {
        "cyan"@
    }
}

/// The name of palette color `c`.
pub fn color_name(c: u8) -> (r: &'static str)
    requires
        c < PALETTE_SIZE,
    ensures
        r@ == spec_color_name(c as int),
{
    match c {
        0 => "red",
        1 => "blue",
        2 => "green",
        3 => "yellow",
        4 => "purple",
        5 => "orange",
        6 => "pink",
        _ => "cyan",
    }
}

/// The decimal digits of `n`, most significant first.
pub open spec fn dec_digits(n: int) -> Seq<char>
    decreases n,
{
    if n <= 0 {
        Seq::empty()
    } else {
        dec_digits(n / 10).push(((48 + n % 10) as u8) as char)
    }
}

/// Decimal digit characters are ASCII.
pub proof fn lemma_dec_digits_ascii(n: int, i: int)
    requires
        0 <= i < dec_digits(n).len(),
    ensures
        48 <= (dec_digits(n)[i] as int) && (dec_digits(n)[i] as int) < 58,
    decreases n,
{
    if n > 0 && i < dec_digits(n / 10).len() {
        lemma_dec_digits_ascii(n / 10, i);
    }
}

/// The decimal rendering of a nonnegative number: its digits, or "0".
pub open spec fn dec_of(n: int) -> Seq<char> {
    if n == 0 {
        seq!['0']
    } else {
        dec_digits(n)
    }
}

/// The serialized owner: `null`, or the quoted color name.
pub open spec fn owner_json(o: Option<int>) -> Seq<char> {
    match o {
        Some(k) => seq!['"'] + spec_color_name(k) + seq!['"'],
        None => "null"@,
    }
}

/// The serialized form of one cell.
pub open spec fn cell_json(c: crate::board::CellM) -> Seq<char> {
    "{\"orbs\":"@ + dec_of(c.orbs) + ",\"owner\":"@ + owner_json(c.owner) + seq!['}']
}

/// The serialized cells of row `r` from column `c` on, comma-separated.
pub open spec fn row_json_from(b: BoardM, r: int, c: int) -> Seq<char>
    decreases b.cols - c,
{
    if c < 0 || c >= b.cols {
        Seq::empty()
    } else {
        (if c > 0 {
            seq![',']
        } else {
            Seq::empty()
        }) + cell_json(b.cells[b.idx(r, c)]) + row_json_from(b, r, c + 1)
    }
}

/// The serialized rows from `r` on, comma-separated bracketed arrays.
pub open spec fn rows_json_from(b: BoardM, r: int) -> Seq<char>
    decreases b.rows - r,
{
    if r < 0 || r >= b.rows {
        Seq::empty()
    } else {
        (if r > 0 {
            seq![',']
        } else {
            Seq::empty()
        }) + seq!['['] + row_json_from(b, r, 0) + seq![']'] + rows_json_from(b, r + 1)
    }
}

/// The full serialized board.
pub open spec fn board_json(b: BoardM) -> Seq<char> {
    seq!['['] + rows_json_from(b, 0) + seq![']']
}

/// The characters spelled by a byte sequence.
pub open spec fn chars_of(s: Seq<u8>) -> Seq<char> {
    s.map(|i: int, b: u8| b as char)
}

/// A character with a seven-bit code point.
pub open spec fn ascii_char(ch: char) -> bool {
    0 <= (ch as int) && (ch as int) < 128
}

/// Relies on `String::from_utf8`: bytes below 128 decode to exactly the
/// characters with those code points.
#[verifier::external_body]
pub(crate) fn ascii_to_string(bytes: Vec<u8>) -> (r: String)
    requires
        forall|i: int| 0 <= i < bytes@.len() ==> bytes@[i] < 128,
    ensures
        r@ == chars_of(bytes@),
{
    String::from_utf8(bytes).unwrap_or_default()
}

/// Append the decimal digits of a positive number.
fn push_digits(out: &mut Vec<u8>, n: u32)
    ensures
        final(out)@ == old(out)@ + dec_digits(n as int).map(|i: int, ch: char| ch as u8),
    decreases n,
{
    if n == 0 {
        proof {
            assert(out@ =~= out@ + dec_digits(0).map(|i: int, ch: char| ch as u8));
        }
        return ;
    }
    let ghost base = out@;
    push_digits(out, n / 10);
    let d: u8 = (n % 10) as u8 + 48;
    out.push(d);
    proof {
        assert(out@ =~= base + dec_digits(n as int).map(|i: int, ch: char| ch as u8));
    }
}

/// Append the decimal rendering of `n`.
fn push_dec(out: &mut Vec<u8>, n: u32)
    ensures
        final(out)@ == old(out)@ + dec_of(n as int).map(|i: int, ch: char| ch as u8),
        forall|i: int|
            old(out)@.len() <= i < final(out)@.len() ==> #[trigger] final(out)@[i] < 128,
{
    let ghost base = out@;
    if n == 0 {
        out.push(48);
        proof {
            reveal_strlit("0");
            assert(dec_of(0).map(|i: int, ch: char| ch as u8) =~= seq![48u8]);
            assert(out@ =~= base + dec_of(0).map(|i: int, ch: char| ch as u8));
        }
    } else {
        push_digits(out, n);
        proof {
            assert forall|i: int| base.len() <= i < out@.len() implies #[trigger] out@[i]
                < 128 by {
                let m = dec_digits(n as int).map(|i2: int, ch: char| ch as u8);
                assert(out@[i] == m[i - base.len()]);
                assert(m[i - base.len()] == dec_digits(n as int)[i - base.len()] as u8);
                lemma_dec_digits_ascii(n as int, i - base.len());
            }
        }
    }
}

/// Append every character of an ASCII literal as its byte.
#[verifier::loop_isolation(false)]
fn push_lit(out: &mut Vec<u8>, s: &str)
    requires
        s.is_ascii(),
    ensures
        final(out)@ == old(out)@ + s@.map(|i: int, ch: char| ch as u8),
        forall|i: int|
            old(out)@.len() <= i < final(out)@.len() ==> #[trigger] final(out)@[i] < 128,
{
    let ghost base = out@;
    let bytes = s.as_bytes();
    let n = bytes.len();
    proof {
        vstd::string::is_ascii_spec_bytes(s);
        assert(bytes@ =~= s@.map(|i: int, ch: char| ch as u8));
    }
    let mut i: usize = 0;
    while i < n
        invariant
            i <= n,
            n == bytes@.len(),
            out@ =~= base + bytes@.take(i as int),
        decreases n - i,
    {
        out.push(bytes[i]);
        i = i + 1;
        proof {
            assert(out@ =~= base + bytes@.take(i as int));
        }
    }
    proof {
        assert(bytes@.take(n as int) =~= bytes@);
        assert forall|i2: int|
            base.len() <= i2 < out@.len() implies #[trigger] out@[i2] < 128 by {
            let ch = s@[i2 - base.len()];
            assert(vstd::utf8::is_ascii_chars(s@));
            assert((ch as int) < 128);
        }
    }
}

/// Appending ASCII bytes appends the characters they spell.
proof fn lemma_chars_of_append(a: Seq<u8>, b: Seq<u8>, s: Seq<char>)
    requires
        b == s.map(|i: int, ch: char| ch as u8),
        forall|i: int| 0 <= i < s.len() ==> ascii_char(#[trigger] s[i]),
    ensures
        chars_of(a + b) == chars_of(a) + s,
{
    assert forall|i: int| 0 <= i < a.len() + b.len() implies chars_of(a + b)[i] == (chars_of(
        a,
    ) + s)[i] by {
        if i < a.len() {
            assert((a + b)[i] == a[i]);
        } else {
            let ch = s[i - a.len()];
            assert(b.len() == s.len());
            assert((a + b)[i] == b[i - a.len()]);
            assert(b[i - a.len()] == ch as u8);
            assert(ascii_char(s[i - a.len()]));
            assert((ch as u8) as int == ch as int);
            assert(((ch as u8) as char) as int == ch as int);
            assert((ch as u8) as char == ch);
        }
    }
    assert(chars_of(a + b) =~= chars_of(a) + s);
}

/// Append the serialized form of one cell.
fn push_cell(out: &mut Vec<u8>, cell: Cell)
    requires
        cell.owner matches Some(k) ==> k < PALETTE_SIZE,
    ensures
        chars_of(final(out)@) == chars_of(old(out)@) + cell_json(crate::board::cell_m(cell)),
        forall|i: int|
            old(out)@.len() <= i < final(out)@.len() ==> #[trigger] final(out)@[i] < 128,
{
    proof {
        reveal_strlit("{\"orbs\":");
        reveal_strlit(",\"owner\":");
        reveal_strlit("null");
        reveal_strlit("\"");
        reveal_strlit("}");
        reveal_strlit("red");
        reveal_strlit("blue");
        reveal_strlit("green");
        reveal_strlit("yellow");
        reveal_strlit("purple");
        reveal_strlit("orange");
        reveal_strlit("pink");
        reveal_strlit("cyan");
    }
    let ghost base = out@;
    push_lit(out, "{\"orbs\":");
    proof {
        lemma_chars_of_append(
            base,
            "{\"orbs\":"@.map(|i: int, ch: char| ch as u8),
            "{\"orbs\":"@,
        );
    }
    let ghost b1 = out@;
    push_dec(out, cell.orbs);
    proof {
        lemma_dec_of_ascii(cell.orbs as int);
        lemma_chars_of_append(
            b1,
            dec_of(cell.orbs as int).map(|i: int, ch: char| ch as u8),
            dec_of(cell.orbs as int),
        );
    }
    let ghost b2 = out@;
    push_lit(out, ",\"owner\":");
    proof {
        lemma_chars_of_append(
            b2,
            ",\"owner\":"@.map(|i: int, ch: char| ch as u8),
            ",\"owner\":"@,
        );
    }
    match cell.owner {
        None => {
            let ghost b3 = out@;
            push_lit(out, "null");
            proof {
                lemma_chars_of_append(b3, "null"@.map(|i: int, ch: char| ch as u8), "null"@);
            }
        },
        Some(k) => {
            let ghost b3 = out@;
            push_lit(out, "\"");
            proof {
                lemma_chars_of_append(b3, "\""@.map(|i: int, ch: char| ch as u8), "\""@);
            }
            let name = color_name(k);
            let ghost b4 = out@;
            proof {
                lemma_color_name_ascii(k as int);
            }
            push_lit(out, name);
            proof {
                lemma_chars_of_append(
                    b4,
                    name@.map(|i: int, ch: char| ch as u8),
                    spec_color_name(k as int),
                );
            }
            let ghost b5 = out@;
            push_lit(out, "\"");
            proof {
                lemma_chars_of_append(b5, "\""@.map(|i: int, ch: char| ch as u8), "\""@);
            }
        },
    }
    let ghost b6 = out@;
    push_lit(out, "}");
    proof {
        lemma_chars_of_append(b6, "}"@.map(|i: int, ch: char| ch as u8), "}"@);
        reveal_strlit("\"");
        reveal_strlit("}");
        assert(chars_of(out@) =~= chars_of(base) + cell_json(crate::board::cell_m(cell)));
    }
}

/// Decimal renderings are ASCII.
proof fn lemma_dec_of_ascii(n: int)
    ensures
        forall|i: int| 0 <= i < dec_of(n).len() ==> ascii_char(#[trigger] dec_of(n)[i]),
{
    reveal_strlit("0");
    assert forall|i: int| 0 <= i < dec_of(n).len() implies ascii_char(
        #[trigger] dec_of(n)[i],
    ) by {
        if n != 0 {
            lemma_dec_digits_ascii(n, i);
        } else {
            assert(dec_of(0)[0] == '0');
        }
    }
}

/// Color names are ASCII.
proof fn lemma_color_name_ascii(c: int)
    ensures
        forall|i: int|
            0 <= i < spec_color_name(c).len() ==> ascii_char(#[trigger] spec_color_name(c)[i]),
{
    reveal_strlit("red");
    reveal_strlit("blue");
    reveal_strlit("green");
    reveal_strlit("yellow");
    reveal_strlit("purple");
    reveal_strlit("orange");
    reveal_strlit("pink");
    reveal_strlit("cyan");
}

/// Serialize a board to its durable textual form: exactly the character
/// sequence `board_json` describes.
#[verifier::loop_isolation(false)]
#[verifier::rlimit(60)]
pub fn board_to_json(b: &Board) -> (r: String)
    requires
        b.wf(),
    ensures
        r@ == board_json(b@),
{
    let ghost bv = b@;
    proof {
        reveal_strlit("[");
        reveal_strlit("]");
        reveal_strlit(",");
    }
    let mut out: Vec<u8> = Vec::new();
    push_lit(&mut out, "[");
    proof {
        reveal_strlit("[");
        assert(chars_of(out@) =~= seq!['[']);
    }
    let rows = b.rows;
    let cols = b.cols;
    let mut r: usize = 0;
    while r < rows
        invariant
            r <= rows,
            chars_of(out@) + rows_json_from(bv, r as int) + seq![']'] =~= board_json(bv),
        decreases rows - r,
    {
        if r > 0 {
            let ghost bb = out@;
            push_lit(&mut out, ",");
            proof {
                reveal_strlit(",");
                lemma_chars_of_append(bb, ","@.map(|i: int, ch: char| ch as u8), ","@);
                assert(","@ =~= seq![',']);
            }
        }
        let ghost bb2 = out@;
        push_lit(&mut out, "[");
        proof {
            reveal_strlit("[");
            lemma_chars_of_append(bb2, "["@.map(|i: int, ch: char| ch as u8), "["@);
            assert("["@ =~= seq!['[']);
        }
        let mut c: usize = 0;
        while c < cols
            invariant
                c <= cols,
                r < rows,
                chars_of(out@) + row_json_from(bv, r as int, c as int) + seq![']']
                    + rows_json_from(bv, r as int + 1) + seq![']'] =~= board_json(bv),
            decreases cols - c,
        {
            if c > 0 {
                let ghost bb3 = out@;
                push_lit(&mut out, ",");
                proof {
                    reveal_strlit(",");
                    lemma_chars_of_append(bb3, ","@.map(|i: int, ch: char| ch as u8), ","@);
                    assert(","@ =~= seq![',']);
                }
            }
            let cell = b.get(r, c);
            proof {
                crate::board::lemma_idx_in_range(bv, r as int, c as int);
                assert(cell_wf(bv.cells[bv.idx(r as int, c as int)]));
            }
            let ghost bb4 = out@;
            push_cell(&mut out, cell);
            proof {
                assert(chars_of(out@) =~= chars_of(bb4) + cell_json(
                    bv.cells[bv.idx(r as int, c as int)],
                ));
                assert(chars_of(out@) + row_json_from(bv, r as int, c as int + 1) + seq![']']
                    + rows_json_from(bv, r as int + 1) + seq![']'] =~= board_json(bv));
            }
            c = c + 1;
        }
        let ghost bb5 = out@;
        push_lit(&mut out, "]");
        proof {
            reveal_strlit("]");
            lemma_chars_of_append(bb5, "]"@.map(|i: int, ch: char| ch as u8), "]"@);
            assert("]"@ =~= seq![']']);
            assert(chars_of(out@) + rows_json_from(bv, r as int + 1) + seq![']']
                =~= board_json(bv));
        }
        r = r + 1;
    }
    let ghost bb6 = out@;
    push_lit(&mut out, "]");
    proof {
        reveal_strlit("]");
        lemma_chars_of_append(bb6, "]"@.map(|i: int, ch: char| ch as u8), "]"@);
        assert("]"@ =~= seq![']']);
        assert(chars_of(out@) =~= board_json(bv));
        lemma_board_json_ascii(bv);
        assert forall|i: int| 0 <= i < out@.len() implies out@[i] < 128 by {
            assert(chars_of(out@)[i] == board_json(bv)[i]);
            assert(out@[i] as char == board_json(bv)[i]);
            assert(ascii_char(board_json(bv)[i]));
            assert((out@[i] as char) as int == out@[i] as int);
        }
    }
    ascii_to_string(out)
}

/// The bytes that spell an ASCII character sequence.
pub open spec fn bytes_of(s: Seq<char>) -> Seq<u8> {
    s.map(|i: int, ch: char| ch as u8)
}

/// The fragment `frag` is spelled by the bytes at `pos`.
pub open spec fn frag_at(bytes: Seq<u8>, pos: int, frag: Seq<char>) -> bool {
    &&& 0 <= pos
    &&& pos + frag.len() <= bytes.len()
    &&& bytes.subrange(pos, pos + frag.len()) == bytes_of(frag)
}

/// A concatenated fragment splits into its two parts.
proof fn lemma_frag_split(bytes: Seq<u8>, pos: int, a: Seq<char>, b: Seq<char>)
    requires
        frag_at(bytes, pos, a + b),
    ensures
        frag_at(bytes, pos, a),
        frag_at(bytes, pos + a.len(), b),
{
    let whole = bytes.subrange(pos, pos + a.len() + b.len());
    assert(bytes.subrange(pos, pos + a.len() as int) =~= bytes_of(a)) by {
        assert forall|i: int| 0 <= i < a.len() implies bytes.subrange(
            pos,
            pos + a.len() as int,
        )[i] == bytes_of(a)[i] by {
            assert(whole[i] == bytes_of(a + b)[i]);
            assert(bytes_of(a + b)[i] == (a + b)[i] as u8);
        }
    }
    assert(bytes.subrange(pos + a.len(), pos + a.len() + b.len()) =~= bytes_of(b)) by {
        assert forall|i: int| 0 <= i < b.len() implies bytes.subrange(
            pos + a.len(),
            pos + a.len() + b.len(),
        )[i] == bytes_of(b)[i] by {
            assert(whole[a.len() + i] == bytes_of(a + b)[a.len() + i]);
            assert(bytes_of(a + b)[a.len() + i] == (a + b)[a.len() + i] as u8);
        }
    }
}

/// A matched fragment fixes each byte it covers.
proof fn lemma_frag_byte(bytes: Seq<u8>, pos: int, frag: Seq<char>, i: int)
    requires
        frag_at(bytes, pos, frag),
        0 <= i < frag.len(),
    ensures
        bytes[pos + i] == frag[i] as u8,
{
    assert(bytes.subrange(pos, pos + frag.len())[i] == bytes_of(frag)[i]);
}

/// Whether `lit` occurs in `bytes` at `pos`; exactly when it does, the
/// position just after it.
#[verifier::loop_isolation(false)]
fn match_lit(bytes: &[u8], pos: usize, lit: &str) -> (r: Option<usize>)
    requires
        pos <= bytes@.len(),
        lit.is_ascii(),
    ensures
        r is Some <==> lit@.len() >= 1 && frag_at(bytes@, pos as int, lit@),
        r matches Some(p) ==> pos < p <= bytes@.len() && p == pos + lit@.len(),
{
    let lb = lit.as_bytes();
    let k = lb.len();
    proof {
        vstd::string::is_ascii_spec_bytes(lit);
        assert(lb@ =~= bytes_of(lit@));
    }
    if k == 0 {
        return None;
    }
    if bytes.len() - pos < k {
        proof {
            assert(!frag_at(bytes@, pos as int, lit@));
        }
        return None;
    }
    let mut i: usize = 0;
    while i < k
        invariant
            i <= k,
            k == lb@.len(),
            k >= 1,
            pos + k <= bytes@.len(),
            forall|j: int| 0 <= j < i ==> bytes@[pos + j] == #[trigger] lb@[j],
        decreases k - i,
    {
        if bytes[pos + i] != lb[i] {
            proof {
                assert(!frag_at(bytes@, pos as int, lit@)) by {
                    if frag_at(bytes@, pos as int, lit@) {
                        lemma_frag_byte(bytes@, pos as int, lit@, i as int);
                    }
                }
            }
            return None;
        }
        i = i + 1;
    }
    proof {
        assert(bytes@.subrange(pos as int, pos + lit@.len()) =~= bytes_of(lit@));
        assert(frag_at(bytes@, pos as int, lit@));
    }
    Some(pos + k)
}

/// The number spelled by decimal digit characters, most significant first.
pub open spec fn digits_val(s: Seq<char>) -> int
    decreases s.len(),
{
    if s.len() == 0 {
        0
    } else {
        digits_val(s.drop_last()) * 10 + (s.last() as int - 48)
    }
}

/// The digits of `v` spell `v`.
proof fn lemma_digits_val_dec_digits(v: int)
    requires
        v >= 0,
    ensures
        digits_val(dec_digits(v)) == v,
    decreases v,
{
    if v > 0 {
        lemma_digits_val_dec_digits(v / 10);
        let s = dec_digits(v);
        assert(s.drop_last() =~= dec_digits(v / 10));
        assert(s.last() as int == 48 + v % 10);
    }
}

/// The decimal rendering of `v` spells `v` and is nonempty.
proof fn lemma_digits_val_dec_of(v: int)
    requires
        v >= 0,
    ensures
        digits_val(dec_of(v)) == v,
        dec_of(v).len() >= 1,
{
    if v == 0 {
        assert(seq!['0'].drop_last() =~= Seq::<char>::empty());
        assert(digits_val(Seq::<char>::empty()) == 0);
        assert(seq!['0'].last() == '0');
        assert(digits_val(seq!['0']) == 0);
    } else {
        lemma_digits_val_dec_digits(v);
    }
}

/// One more digit multiplies the prefix value by ten and adds it.
proof fn lemma_digits_val_take(s: Seq<char>, j: int)
    requires
        0 <= j < s.len(),
    ensures
        digits_val(s.take(j + 1)) == digits_val(s.take(j)) * 10 + (s[j] as int - 48),
{
    assert(s.take(j + 1).drop_last() =~= s.take(j));
    assert(s.take(j + 1).last() == s[j]);
}

/// A value spelled by digit characters is nonnegative.
proof fn lemma_digits_val_nonneg(s: Seq<char>)
    requires
        forall|i: int| 0 <= i < s.len() ==> 48 <= (#[trigger] s[i]) as int,
    ensures
        digits_val(s) >= 0,
    decreases s.len(),
{
    if s.len() > 0 {
        assert(forall|i: int|
            0 <= i < s.drop_last().len() ==> 48 <= (#[trigger] s.drop_last()[i]) as int);
        lemma_digits_val_nonneg(s.drop_last());
        assert(digits_val(s.drop_last()) * 10 >= 0) by (nonlinear_arith)
            requires
                digits_val(s.drop_last()) >= 0,
            ;
    }
}

/// A digit prefix never spells more than the whole.
proof fn lemma_digits_val_prefix_le(s: Seq<char>, j: int)
    requires
        0 <= j <= s.len(),
        forall|i: int| 0 <= i < s.len() ==> 48 <= (#[trigger] s[i]) as int,
    ensures
        digits_val(s.take(j)) <= digits_val(s),
    decreases s.len() - j,
{
    if j < s.len() {
        lemma_digits_val_take(s, j);
        assert(forall|i: int|
            0 <= i < s.take(j).len() ==> 48 <= (#[trigger] s.take(j)[i]) as int);
        lemma_digits_val_nonneg(s.take(j));
        assert(digits_val(s.take(j)) * 10 >= digits_val(s.take(j))) by (nonlinear_arith)
            requires
                digits_val(s.take(j)) >= 0,
            ;
        lemma_digits_val_prefix_le(s, j + 1);
    } else {
        assert(s.take(j) =~= s);
    }
}

/// Every character of a decimal rendering is a digit.
proof fn lemma_dec_of_digits(v: int)
    requires
        v >= 0,
    ensures
        forall|i: int|
            0 <= i < dec_of(v).len() ==> 48 <= (#[trigger] dec_of(v)[i]) as int && ((dec_of(
                v,
            )[i]) as int) < 58,
{
    assert forall|i: int|
        0 <= i < dec_of(v).len() implies 48 <= (#[trigger] dec_of(v)[i]) as int && ((dec_of(
        v,
    )[i]) as int) < 58 by {
        if v == 0 {
            assert(dec_of(0)[0] == '0');
        } else {
            lemma_dec_digits_ascii(v, i);
        }
    }
}

/// A byte that spells a decimal digit.
pub open spec fn is_digit_byte(b: u8) -> bool {
    48 <= b <= 57
}

/// The decimal rendering of `v` sits at `pos`, with no further digit after
/// it.
pub open spec fn num_at(bytes: Seq<u8>, pos: int, v: u32) -> bool {
    &&& frag_at(bytes, pos, dec_of(v as int))
    &&& (pos + dec_of(v as int).len() == bytes.len() || !is_digit_byte(
        bytes[pos + dec_of(v as int).len()],
    ))
}

/// Scan an unsigned decimal number at `pos`; a canonical rendering followed
/// by a non-digit is always read back as its value.
#[verifier::loop_isolation(false)]
fn scan_u32(bytes: &[u8], pos: usize) -> (r: Option<(u32, usize)>)
    requires
        pos <= bytes@.len(),
    ensures
        r matches Some(vp) ==> pos < vp.1 <= bytes@.len(),
        forall|v: u32|
            #[trigger] num_at(bytes@, pos as int, v) ==> (r matches Some(vp) && vp.0 == v
                && vp.1 == pos + dec_of(v as int).len()),
{
    let n = bytes.len();
    let mut p = pos;
    let mut acc: u64 = 0;
    while p < n && bytes[p] >= 48 && bytes[p] <= 57 && acc <= u32::MAX as u64
        invariant
            pos <= p <= n,
            n == bytes@.len(),
            acc <= u64::MAX / 16,
            forall|v: u32|
                #[trigger] num_at(bytes@, pos as int, v) ==> (p - pos
                    <= dec_of(v as int).len() && acc == digits_val(
                    dec_of(v as int).take(p - pos),
                )),
        decreases n - p,
    {
        let ghost p0 = p as int;
        let ghost acc0 = acc;
        acc = acc * 10 + (bytes[p] - 48) as u64;
        if acc > u32::MAX as u64 {
            proof {
                assert forall|v: u32| !(#[trigger] num_at(bytes@, pos as int, v)) by {
                    if num_at(bytes@, pos as int, v) {
                        lemma_scan_digit_step(bytes@, pos as int, v, p0, acc0);
                        assert(acc == digits_val(dec_of(v as int).take(p0 - pos + 1)));
                        lemma_dec_of_digits(v as int);
                        lemma_digits_val_prefix_le(dec_of(v as int), p0 - pos + 1);
                        lemma_digits_val_dec_of(v as int);
                        assert(acc <= v);
                    }
                }
            }
            return None;
        }
        proof {
            assert forall|v: u32| #[trigger] num_at(bytes@, pos as int, v) implies (p0 + 1
                - pos <= dec_of(v as int).len() && acc == digits_val(
                dec_of(v as int).take(p0 + 1 - pos),
            )) by {
                lemma_scan_digit_step(bytes@, pos as int, v, p0, acc0);
            }
        }
        p = p + 1;
    }
    proof {
        assert forall|v: u32| #[trigger] num_at(bytes@, pos as int, v) implies (p as int
            == pos + dec_of(v as int).len() && acc == v) by {
            let d = dec_of(v as int);
            lemma_dec_of_digits(v as int);
            lemma_digits_val_dec_of(v as int);
            if (p as int) - pos < d.len() {
                lemma_frag_byte(bytes@, pos as int, d, p - pos);
                lemma_digits_val_prefix_le(d, p as int - pos);
                assert(is_digit_byte(bytes@[p as int]));
                assert((p as int) < bytes@.len());
                assert(acc <= v <= u32::MAX);
                assert(false);
            }
            assert(d.take(p as int - pos) =~= d);
        }
    }
    if p == pos || acc > u32::MAX as u64 {
        proof {
            assert forall|v: u32| !(#[trigger] num_at(bytes@, pos as int, v)) by {
                if num_at(bytes@, pos as int, v) {
                    lemma_digits_val_dec_of(v as int);
                }
            }
        }
        None
    } else {
        Some((acc as u32, p))
    }
}

/// One loop step of the decimal scan, for the value the bytes canonically
/// spell: the position stays within the rendering and the accumulator holds
/// the prefix's value.
proof fn lemma_scan_digit_step(bytes: Seq<u8>, pos: int, v: u32, p0: int, acc0: u64)
    requires
        num_at(bytes, pos, v),
        pos <= p0,
        p0 - pos <= dec_of(v as int).len(),
        acc0 == digits_val(dec_of(v as int).take(p0 - pos)),
        p0 < bytes.len(),
        is_digit_byte(bytes[p0]),
        acc0 <= u32::MAX,
    ensures
        p0 - pos < dec_of(v as int).len(),
        p0 + 1 - pos <= dec_of(v as int).len(),
        acc0 * 10 + (bytes[p0] - 48) == digits_val(dec_of(v as int).take(p0 + 1 - pos)),
{
    let d = dec_of(v as int);
    lemma_dec_of_digits(v as int);
    if p0 - pos == d.len() {
        assert(pos + d.len() < bytes.len());
        assert(!is_digit_byte(bytes[pos + d.len()]));
        assert(false);
    }
    lemma_frag_byte(bytes, pos, d, p0 - pos);
    assert(bytes[p0] == d[p0 - pos] as u8);
    lemma_digits_val_take(d, p0 - pos);
}

/// An owner that may appear in the durable form.
pub open spec fn valid_owner(o: Option<int>) -> bool {
    match o {
        Some(k) => 0 <= k < PALETTE_SIZE,
        None => true,
    }
}

/// The owner as the cell field carries it.
pub open spec fn owner_u8(o: Option<int>) -> Option<u8> {
    match o {
        Some(k) => Some(k as u8),
        None => None,
    }
}

/// The serialized owner `o` sits at `pos`.
pub open spec fn owner_at(bytes: Seq<u8>, pos: int, o: Option<int>) -> bool {
    valid_owner(o) && frag_at(bytes, pos, owner_json(o))
}

/// The quoted palette names, written out.
proof fn lemma_quoted_names()
    ensures
        "\"red\""@ == owner_json(Some(0)),
        "\"blue\""@ == owner_json(Some(1)),
        "\"green\""@ == owner_json(Some(2)),
        "\"yellow\""@ == owner_json(Some(3)),
        "\"purple\""@ == owner_json(Some(4)),
        "\"orange\""@ == owner_json(Some(5)),
        "\"pink\""@ == owner_json(Some(6)),
        "\"cyan\""@ == owner_json(Some(7)),
{
    reveal_strlit("red");
    reveal_strlit("blue");
    reveal_strlit("green");
    reveal_strlit("yellow");
    reveal_strlit("purple");
    reveal_strlit("orange");
    reveal_strlit("pink");
    reveal_strlit("cyan");
    reveal_strlit("\"red\"");
    reveal_strlit("\"blue\"");
    reveal_strlit("\"green\"");
    reveal_strlit("\"yellow\"");
    reveal_strlit("\"purple\"");
    reveal_strlit("\"orange\"");
    reveal_strlit("\"pink\"");
    reveal_strlit("\"cyan\"");
    assert("\"red\""@ =~= owner_json(Some(0)));
    assert("\"blue\""@ =~= owner_json(Some(1)));
    assert("\"green\""@ =~= owner_json(Some(2)));
    assert("\"yellow\""@ =~= owner_json(Some(3)));
    assert("\"purple\""@ =~= owner_json(Some(4)));
    assert("\"orange\""@ =~= owner_json(Some(5)));
    assert("\"pink\""@ =~= owner_json(Some(6)));
    assert("\"cyan\""@ =~= owner_json(Some(7)));
}

/// At most one serialized owner sits at a given position: the nine renderings
/// pairwise differ within their first three characters.
proof fn lemma_owner_unique(bytes: Seq<u8>, pos: int, o1: Option<int>, o2: Option<int>)
    requires
        owner_at(bytes, pos, o1),
        owner_at(bytes, pos, o2),
    ensures
        o1 == o2,
{
    reveal_strlit("null");
    reveal_strlit("red");
    reveal_strlit("blue");
    reveal_strlit("green");
    reveal_strlit("yellow");
    reveal_strlit("purple");
    reveal_strlit("orange");
    reveal_strlit("pink");
    reveal_strlit("cyan");
    if o1 != o2 {
        lemma_frag_byte(bytes, pos, owner_json(o1), 0);
        lemma_frag_byte(bytes, pos, owner_json(o1), 1);
        lemma_frag_byte(bytes, pos, owner_json(o1), 2);
        lemma_frag_byte(bytes, pos, owner_json(o2), 0);
        lemma_frag_byte(bytes, pos, owner_json(o2), 1);
        lemma_frag_byte(bytes, pos, owner_json(o2), 2);
        assert(false);
    }
}

/// Scan an owner at `pos`: `null` or a quoted palette color name; every
/// canonically serialized owner is read back as itself.
fn scan_owner(bytes: &[u8], pos: usize) -> (r: Option<(Option<u8>, usize)>)
    requires
        pos <= bytes@.len(),
    ensures
        r matches Some(vp) ==> pos < vp.1 <= bytes@.len() && (vp.0 matches Some(k) ==> k
            < PALETTE_SIZE),
        forall|o: Option<int>|
            #[trigger] owner_at(bytes@, pos as int, o) ==> (r matches Some(vp) && vp.0
                == owner_u8(o) && vp.1 == pos + owner_json(o).len()),
{
    proof {
        reveal_strlit("null");
        reveal_strlit("\"red\"");
        reveal_strlit("\"blue\"");
        reveal_strlit("\"green\"");
        reveal_strlit("\"yellow\"");
        reveal_strlit("\"purple\"");
        reveal_strlit("\"orange\"");
        reveal_strlit("\"pink\"");
        reveal_strlit("\"cyan\"");
        lemma_quoted_names();
    }
    if let Some(p) = match_lit(bytes, pos, "null") {
        proof {
            lemma_owner_all(bytes@, pos as int, None);
        }
        return Some((None, p));
    }
    if let Some(p) = match_lit(bytes, pos, "\"red\"") {
        proof {
            lemma_owner_all(bytes@, pos as int, Some(0));
        }
        return Some((Some(0), p));
    }
    if let Some(p) = match_lit(bytes, pos, "\"blue\"") {
        proof {
            lemma_owner_all(bytes@, pos as int, Some(1));
        }
        return Some((Some(1), p));
    }
    if let Some(p) = match_lit(bytes, pos, "\"green\"") {
        proof {
            lemma_owner_all(bytes@, pos as int, Some(2));
        }
        return Some((Some(2), p));
    }
    if let Some(p) = match_lit(bytes, pos, "\"yellow\"") {
        proof {
            lemma_owner_all(bytes@, pos as int, Some(3));
        }
        return Some((Some(3), p));
    }
    if let Some(p) = match_lit(bytes, pos, "\"purple\"") {
        proof {
            lemma_owner_all(bytes@, pos as int, Some(4));
        }
        return Some((Some(4), p));
    }
    if let Some(p) = match_lit(bytes, pos, "\"orange\"") {
        proof {
            lemma_owner_all(bytes@, pos as int, Some(5));
        }
        return Some((Some(5), p));
    }
    if let Some(p) = match_lit(bytes, pos, "\"pink\"") {
        proof {
            lemma_owner_all(bytes@, pos as int, Some(6));
        }
        return Some((Some(6), p));
    }
    if let Some(p) = match_lit(bytes, pos, "\"cyan\"") {
        proof {
            lemma_owner_all(bytes@, pos as int, Some(7));
        }
        return Some((Some(7), p));
    }
    None
}

/// If owner `o` is serialized at `pos`, no other owner is.
proof fn lemma_owner_all(bytes: Seq<u8>, pos: int, o: Option<int>)
    requires
        valid_owner(o),
        frag_at(bytes, pos, owner_json(o)),
    ensures
        forall|o2: Option<int>| #[trigger] owner_at(bytes, pos, o2) ==> o2 == o,
{
    assert forall|o2: Option<int>| #[trigger] owner_at(bytes, pos, o2) implies o2 == o by {
        lemma_owner_unique(bytes, pos, o, o2);
    }
}

/// The well-formed cell `cm`, with a representable orb count, is serialized
/// at `pos`.
pub open spec fn cell_at(bytes: Seq<u8>, pos: int, cm: crate::board::CellM) -> bool {
    &&& cell_wf(cm)
    &&& cm.orbs <= u32::MAX
    &&& frag_at(bytes, pos, cell_json(cm))
}

/// A serialized cell decomposes into its five parts at fixed offsets.
proof fn lemma_cell_frags(bytes: Seq<u8>, pos: int, cm: crate::board::CellM)
    requires
        cell_at(bytes, pos, cm),
    ensures
        frag_at(bytes, pos, "{\"orbs\":"@),
        "{\"orbs\":"@.len() == 8,
        num_at(bytes, pos + 8, (cm.orbs as u32)),
        dec_of(cm.orbs) == dec_of((cm.orbs as u32) as int),
        frag_at(bytes, pos + 8 + dec_of(cm.orbs).len(), ",\"owner\":"@),
        ",\"owner\":"@.len() == 9,
        owner_at(bytes, pos + 17 + dec_of(cm.orbs).len(), cm.owner),
        frag_at(
            bytes,
            pos + 17 + dec_of(cm.orbs).len() + owner_json(cm.owner).len(),
            seq!['}'],
        ),
        cell_json(cm).len() == 18 + dec_of(cm.orbs).len() + owner_json(cm.owner).len(),
{
    reveal_strlit("{\"orbs\":");
    reveal_strlit(",\"owner\":");
    let l1 = "{\"orbs\":"@;
    let d = dec_of(cm.orbs);
    let l2 = ",\"owner\":"@;
    let oj = owner_json(cm.owner);
    let tail = seq!['}'];
    lemma_frag_split(bytes, pos, l1 + d + l2 + oj, tail);
    lemma_frag_split(bytes, pos, l1 + d + l2, oj);
    lemma_frag_split(bytes, pos, l1 + d, l2);
    lemma_frag_split(bytes, pos, l1, d);
    assert(frag_at(bytes, pos + 8, d));
    assert(num_at(bytes, pos + 8, (cm.orbs as u32))) by {
        lemma_frag_byte(bytes, pos + 8 + d.len(), l2, 0);
        assert(l2[0] == ',');
        assert(!is_digit_byte(bytes[pos + 8 + d.len()]));
    }
}

/// Scan one cell object at `pos`, rejecting cells whose orb count and owner
/// are inconsistent; every canonically serialized well-formed cell is read
/// back as itself.
fn scan_cell(bytes: &[u8], pos: usize) -> (r: Option<(Cell, usize)>)
    requires
        pos <= bytes@.len(),
    ensures
        r matches Some(vp) ==> pos < vp.1 <= bytes@.len() && cell_wf(crate::board::cell_m(
            vp.0,
        )),
        forall|cm: crate::board::CellM|
            #[trigger] cell_at(bytes@, pos as int, cm) ==> (r matches Some(vp) && vp.0
                == (Cell { orbs: (cm.orbs as u32), owner: owner_u8(cm.owner) }) && vp.1
                == pos + cell_json(cm).len()),
{
    proof {
        reveal_strlit("{\"orbs\":");
        reveal_strlit(",\"owner\":");
        reveal_strlit("}");
    }
    let p1 = match match_lit(bytes, pos, "{\"orbs\":") {
        None => {
            proof {
                assert forall|cm: crate::board::CellM|
                    !(#[trigger] cell_at(bytes@, pos as int, cm)) by {
                    if cell_at(bytes@, pos as int, cm) {
                        lemma_cell_frags(bytes@, pos as int, cm);
                    }
                }
            }
            return None;
        },
        Some(p) => p,
    };
    let (orbs, p2) = match scan_u32(bytes, p1) {
        None => {
            proof {
                assert forall|cm: crate::board::CellM|
                    !(#[trigger] cell_at(bytes@, pos as int, cm)) by {
                    if cell_at(bytes@, pos as int, cm) {
                        lemma_cell_frags(bytes@, pos as int, cm);
                        assert(p1 == pos + 8);
                        assert(num_at(bytes@, p1 as int, (cm.orbs as u32)));
                    }
                }
            }
            return None;
        },
        Some(vp) => vp,
    };
    let p3 = match match_lit(bytes, p2, ",\"owner\":") {
        None => {
            proof {
                assert forall|cm: crate::board::CellM|
                    !(#[trigger] cell_at(bytes@, pos as int, cm)) by {
                    if cell_at(bytes@, pos as int, cm) {
                        lemma_cell_frags(bytes@, pos as int, cm);
                        assert(p1 == pos + 8);
                        assert(num_at(bytes@, p1 as int, (cm.orbs as u32)));
                        assert(p2 == pos + 8 + dec_of(cm.orbs).len());
                        assert(frag_at(bytes@, p2 as int, ",\"owner\":"@));
                    }
                }
            }
            return None;
        },
        Some(p) => p,
    };
    let (owner, p4) = match scan_owner(bytes, p3) {
        None => {
            proof {
                assert forall|cm: crate::board::CellM|
                    !(#[trigger] cell_at(bytes@, pos as int, cm)) by {
                    if cell_at(bytes@, pos as int, cm) {
                        lemma_cell_frags(bytes@, pos as int, cm);
                        assert(p1 == pos + 8);
                        assert(num_at(bytes@, p1 as int, (cm.orbs as u32)));
                        assert(p2 == pos + 8 + dec_of(cm.orbs).len());
                        assert(p3 == pos + 17 + dec_of(cm.orbs).len());
                        assert(owner_at(bytes@, p3 as int, cm.owner));
                    }
                }
            }
            return None;
        },
        Some(vp) => vp,
    };
    let p5 = match match_lit(bytes, p4, "}") {
        None => {
            proof {
                assert forall|cm: crate::board::CellM|
                    !(#[trigger] cell_at(bytes@, pos as int, cm)) by {
                    if cell_at(bytes@, pos as int, cm) {
                        lemma_cell_frags(bytes@, pos as int, cm);
                        assert(p1 == pos + 8);
                        assert(num_at(bytes@, p1 as int, (cm.orbs as u32)));
                        assert(p2 == pos + 8 + dec_of(cm.orbs).len());
                        assert(p3 == pos + 17 + dec_of(cm.orbs).len());
                        assert(owner_at(bytes@, p3 as int, cm.owner));
                        assert(p4 == pos + 17 + dec_of(cm.orbs).len() + owner_json(
                            cm.owner,
                        ).len());
                        assert("}"@ =~= seq!['}']);
                        assert(frag_at(bytes@, p4 as int, "}"@));
                    }
                }
            }
            return None;
        },
        Some(p) => p,
    };
    proof {
        assert forall|cm: crate::board::CellM|
            #[trigger] cell_at(bytes@, pos as int, cm) implies (orbs == cm.orbs
            && owner == owner_u8(cm.owner) && p5 == pos + cell_json(cm).len()) by {
            lemma_cell_frags(bytes@, pos as int, cm);
            assert(p1 == pos + 8);
            assert(num_at(bytes@, p1 as int, (cm.orbs as u32)));
            assert(p2 == pos + 8 + dec_of(cm.orbs).len());
            assert(p3 == pos + 17 + dec_of(cm.orbs).len());
            assert(owner_at(bytes@, p3 as int, cm.owner));
            assert(p4 == pos + 17 + dec_of(cm.orbs).len() + owner_json(cm.owner).len());
            assert("}"@ =~= seq!['}']);
            assert(frag_at(bytes@, p4 as int, "}"@));
            assert(p5 == pos + 18 + dec_of(cm.orbs).len() + owner_json(cm.owner).len());
        }
    }
    match owner {
        None => {
            if orbs != 0 {
                proof {
                    assert forall|cm: crate::board::CellM|
                        !(#[trigger] cell_at(bytes@, pos as int, cm)) by {
                        if cell_at(bytes@, pos as int, cm) {
                            assert(cm.owner is None && cm.orbs != 0);
                        }
                    }
                }
                return None;
            }
        },
        Some(_) => {
            if orbs == 0 {
                proof {
                    assert forall|cm: crate::board::CellM|
                        !(#[trigger] cell_at(bytes@, pos as int, cm)) by {
                        if cell_at(bytes@, pos as int, cm) {
                            assert(cm.owner is Some && cm.orbs == 0);
                        }
                    }
                }
                return None;
            }
        },
    }
    Some((Cell { orbs, owner }, p5))
}

/// Every orb count on the board fits the cell field that carries it.
pub open spec fn bounded(b: BoardM) -> bool {
    forall|i: int| 0 <= i < b.cells.len() ==> (#[trigger] b.cells[i]).orbs <= u32::MAX
}

/// Row `r` of board `b` is serialized, brackets included, at `pos`.
pub open spec fn row_at(bytes: Seq<u8>, pos: int, b: BoardM, r: int) -> bool {
    &&& b.wf()
    &&& bounded(b)
    &&& 0 <= r < b.rows
    &&& frag_at(bytes, pos, seq!['['] + row_json_from(b, r, 0) + seq![']'])
}

/// The first `k` cells of row `rr`, as the cell records the parser builds.
pub open spec fn row_cells(b: BoardM, rr: int, k: int) -> Seq<Cell> {
    Seq::new(
        (if k >= 0 {
            k
        } else {
            0
        }) as nat,
        |c: int| Cell {
            orbs: (b.cells[b.idx(rr, c)].orbs as u32),
            owner: owner_u8(b.cells[b.idx(rr, c)].owner),
        },
    )
}

/// The cell at `(rr, k)` of a serialized row sits just past the row's first
/// `k` renderings; splitting the remaining fragment exposes it.
proof fn lemma_row_step(bytes: Seq<u8>, p: int, b: BoardM, rr: int, k: int)
    requires
        b.wf(),
        bounded(b),
        0 <= rr < b.rows,
        0 <= k < b.cols,
        frag_at(bytes, p, row_json_from(b, rr, k) + seq![']']),
    ensures
        k > 0 ==> frag_at(bytes, p, seq![',']) && frag_at(
            bytes,
            p + 1,
            cell_json(b.cells[b.idx(rr, k)]) + (row_json_from(b, rr, k + 1) + seq![']']),
        ),
        k == 0 ==> frag_at(
            bytes,
            p,
            cell_json(b.cells[b.idx(rr, k)]) + (row_json_from(b, rr, k + 1) + seq![']']),
        ),
        cell_at(bytes, p + (if k > 0 {
            1int
        } else {
            0int
        }), b.cells[b.idx(rr, k)]),
        frag_at(
            bytes,
            p + (if k > 0 {
                1int
            } else {
                0int
            }) + cell_json(b.cells[b.idx(rr, k)]).len(),
            row_json_from(b, rr, k + 1) + seq![']'],
        ),
        row_json_from(b, rr, k).len() == (if k > 0 {
            1int
        } else {
            0int
        }) + cell_json(b.cells[b.idx(rr, k)]).len() + row_json_from(b, rr, k + 1).len(),
{
    crate::board::lemma_idx_in_range(b, rr, k);
    let cj = cell_json(b.cells[b.idx(rr, k)]);
    let rest = row_json_from(b, rr, k + 1) + seq![']'];
    if k > 0 {
        assert(row_json_from(b, rr, k) + seq![']'] =~= seq![','] + (cj + rest));
        lemma_frag_split(bytes, p, seq![','], cj + rest);
        lemma_frag_split(bytes, p + 1, cj, rest);
    } else {
        assert(row_json_from(b, rr, k) + seq![']'] =~= cj + rest);
        lemma_frag_split(bytes, p, cj, rest);
    }
}

/// Scan one bracketed row of cells at `pos`, appending them to `cells`;
/// on a match, the number of cells read and the position just after the row.
/// Every canonically serialized row of a well-formed board is read back as
/// that row.
#[verifier::loop_isolation(false)]
fn scan_row(bytes: &[u8], pos: usize, cells: &mut Vec<Cell>) -> (r: Option<(usize, usize)>)
    requires
        pos <= bytes@.len(),
        forall|j: int|
            0 <= j < old(cells)@.len() ==> cell_wf(crate::board::cell_m(
                #[trigger] old(cells)@[j],
            )),
    ensures
        forall|j: int|
            0 <= j < final(cells)@.len() ==> cell_wf(crate::board::cell_m(
                #[trigger] final(cells)@[j],
            )),
        r matches Some(kp) ==> pos < kp.1 <= bytes@.len() && kp.0 >= 1 && final(cells)@.len()
            == old(cells)@.len() + kp.0,
        r is None ==> final(cells)@.len() >= old(cells)@.len(),
        forall|b: BoardM, rr: int|
            #[trigger] row_at(bytes@, pos as int, b, rr) ==> (r matches Some(kp) && kp.0
                == b.cols && kp.1 == pos + 2 + row_json_from(b, rr, 0).len()
                && final(cells)@ == old(cells)@ + row_cells(b, rr, b.cols)),
{
    proof {
        reveal_strlit("[");
        reveal_strlit("]");
        assert("["@ =~= seq!['[']);
        assert("]"@ =~= seq![']']);
    }
    let n = bytes.len();
    let mut p = match match_lit(bytes, pos, "[") {
        None => {
            proof {
                assert forall|b: BoardM, rr: int|
                    !(#[trigger] row_at(bytes@, pos as int, b, rr)) by {
                    if row_at(bytes@, pos as int, b, rr) {
                        assert(seq!['['] + row_json_from(b, rr, 0) + seq![']'] =~= seq!['[']
                            + (row_json_from(b, rr, 0) + seq![']']));
                        lemma_frag_split(
                            bytes@,
                            pos as int,
                            seq!['['],
                            row_json_from(b, rr, 0) + seq![']'],
                        );
                        assert(frag_at(bytes@, pos as int, "["@));
                    }
                }
            }
            return None;
        },
        Some(q) => q,
    };
    let ghost pc = p as int;
    proof {
        assert(pc == pos + 1);
        assert forall|b: BoardM, rr: int|
            #[trigger] row_at(bytes@, pos as int, b, rr) implies frag_at(
            bytes@,
            pc,
            row_json_from(b, rr, 0) + seq![']'],
        ) by {
            assert(seq!['['] + row_json_from(b, rr, 0) + seq![']'] =~= seq!['['] + (
            row_json_from(b, rr, 0) + seq![']']));
            lemma_frag_split(bytes@, pos as int, seq!['['], row_json_from(b, rr, 0) + seq![']']);
        }
    }
    let (cell0, p1) = match scan_cell(bytes, p) {
        None => {
            proof {
                assert forall|b: BoardM, rr: int|
                    !(#[trigger] row_at(bytes@, pos as int, b, rr)) by {
                    if row_at(bytes@, pos as int, b, rr) {
                        assert(frag_at(bytes@, pc, row_json_from(b, rr, 0) + seq![']']));
                        lemma_row_step(bytes@, pc, b, rr, 0);
                        assert(cell_at(bytes@, pc, b.cells[b.idx(rr, 0)]));
                    }
                }
            }
            return None;
        },
        Some(vp) => vp,
    };
    cells.push(cell0);
    p = p1;
    let mut k: usize = 1;
    let ghost cells0 = old(cells)@;
    proof {
        assert forall|b: BoardM, rr: int|
            #[trigger] row_at(bytes@, pos as int, b, rr) implies (1 <= k <= b.cols && frag_at(
            bytes@,
            p as int,
            row_json_from(b, rr, k as int) + seq![']'],
        ) && p == pos + 1 + row_json_from(b, rr, 0).len() - row_json_from(
            b,
            rr,
            k as int,
        ).len() && cells@ == cells0 + row_cells(b, rr, k as int)) by {
            assert(frag_at(bytes@, pc, row_json_from(b, rr, 0) + seq![']']));
            lemma_row_step(bytes@, pc, b, rr, 0);
            assert(cell_at(bytes@, pc, b.cells[b.idx(rr, 0)]));
            assert(cell0 == (Cell {
                orbs: (b.cells[b.idx(rr, 0)].orbs as u32),
                owner: owner_u8(b.cells[b.idx(rr, 0)].owner),
            }));
            assert(p1 == pc + cell_json(b.cells[b.idx(rr, 0)]).len());
            assert(cells@ =~= cells0 + row_cells(b, rr, 1));
        }
    }
    while p < n && bytes[p] == 44
        invariant
            pos <= p <= n,
            n == bytes@.len(),
            k >= 1,
            k <= cells@.len(),
            cells@.len() == cells0.len() + k,
            cells0 == old(cells)@,
            forall|j: int|
                0 <= j < cells@.len() ==> cell_wf(crate::board::cell_m(
                    #[trigger] cells@[j],
                )),
            forall|b: BoardM, rr: int|
                #[trigger] row_at(bytes@, pos as int, b, rr) ==> (1 <= k <= b.cols
                    && frag_at(bytes@, p as int, row_json_from(b, rr, k as int) + seq![']'])
                    && p == pos + 1 + row_json_from(b, rr, 0).len() - row_json_from(
                    b,
                    rr,
                    k as int,
                ).len() && cells@ == cells0 + row_cells(b, rr, k as int)),
        decreases n - p,
    {
        let ghost kg = k as int;
        let ghost pg = p as int;
        let (cell, p2) = match scan_cell(bytes, p + 1) {
            None => {
                proof {
                    assert forall|b: BoardM, rr: int|
                        !(#[trigger] row_at(bytes@, pos as int, b, rr)) by {
                        if row_at(bytes@, pos as int, b, rr) {
                            if kg == b.cols {
                                lemma_frag_byte(
                                    bytes@,
                                    pg,
                                    row_json_from(b, rr, kg) + seq![']'],
                                    0,
                                );
                            } else {
                                lemma_row_step(bytes@, pg, b, rr, kg);
                            }
                        }
                    }
                }
                return None;
            },
            Some(vp) => vp,
        };
        cells.push(cell);
        p = p2;
        if k == usize::MAX {
            proof {
                assert forall|b: BoardM, rr: int|
                    !(#[trigger] row_at(bytes@, pos as int, b, rr)) by {
                    if row_at(bytes@, pos as int, b, rr) {
                        assert(kg <= b.cols <= MAX_DIM);
                    }
                }
            }
            return None;
        }
        k = k + 1;
        proof {
            assert forall|b: BoardM, rr: int|
                #[trigger] row_at(bytes@, pos as int, b, rr) implies (1 <= k <= b.cols
                && frag_at(bytes@, p as int, row_json_from(b, rr, k as int) + seq![']'])
                && p == pos + 1 + row_json_from(b, rr, 0).len() - row_json_from(
                b,
                rr,
                k as int,
            ).len() && cells@ == cells0 + row_cells(b, rr, k as int)) by {
                if kg == b.cols {
                    lemma_frag_byte(bytes@, pg, row_json_from(b, rr, kg) + seq![']'], 0);
                    assert(false);
                } else {
                    lemma_row_step(bytes@, pg, b, rr, kg);
                    assert(cell_at(bytes@, pg + 1, b.cells[b.idx(rr, kg)]));
                    assert(cells@ =~= cells0 + row_cells(b, rr, kg + 1));
                }
            }
        }
    }
    match match_lit(bytes, p, "]") {
        None => {
            proof {
                assert forall|b: BoardM, rr: int|
                    !(#[trigger] row_at(bytes@, pos as int, b, rr)) by {
                    if row_at(bytes@, pos as int, b, rr) {
                        if (k as int) < b.cols {
                            lemma_row_step(bytes@, p as int, b, rr, k as int);
                            lemma_frag_byte(bytes@, p as int, seq![','], 0);
                        } else {
                            assert(row_json_from(b, rr, k as int) + seq![']'] =~= seq![']']);
                            assert(frag_at(bytes@, p as int, "]"@));
                        }
                    }
                }
            }
            None
        },
        Some(q) => {
            proof {
                assert forall|b: BoardM, rr: int|
                    #[trigger] row_at(bytes@, pos as int, b, rr) implies (k == b.cols && q
                    == pos + 2 + row_json_from(b, rr, 0).len() && cells@ == cells0
                    + row_cells(b, rr, b.cols)) by {
                    if (k as int) < b.cols {
                        lemma_row_step(bytes@, p as int, b, rr, k as int);
                        lemma_frag_byte(bytes@, p as int, seq![','], 0);
                        assert(p < n && bytes@[p as int] == 44);
                        assert(false);
                    }
                    assert(row_json_from(b, rr, k as int) =~= Seq::<char>::empty());
                }
            }
            Some((k, q))
        },
    }
}

/// The whole byte string is the serialization of board `bm`.
pub open spec fn board_at(bytes: Seq<u8>, bm: BoardM) -> bool {
    &&& bm.wf()
    &&& bounded(bm)
    &&& bytes.len() == board_json(bm).len()
    &&& frag_at(bytes, 0, board_json(bm))
}

/// The cells of the first `r` rows, as the cell records the parser builds.
pub open spec fn board_cells(bm: BoardM, r: int) -> Seq<Cell> {
    Seq::new(
        (if r >= 0 {
            r * bm.cols
        } else {
            0
        }) as nat,
        |i: int| Cell {
            orbs: (bm.cells[i].orbs as u32),
            owner: owner_u8(bm.cells[i].owner),
        },
    )
}

/// Row `r` of a serialized board sits just past the first `r` row
/// renderings; splitting the remaining fragment exposes it.
proof fn lemma_rows_step(bytes: Seq<u8>, p: int, bm: BoardM, r: int)
    requires
        bm.wf(),
        bounded(bm),
        0 <= r < bm.rows,
        frag_at(bytes, p, rows_json_from(bm, r) + seq![']']),
    ensures
        r > 0 ==> frag_at(bytes, p, seq![',']),
        row_at(bytes, p + (if r > 0 {
            1int
        } else {
            0int
        }), bm, r),
        frag_at(
            bytes,
            p + (if r > 0 {
                1int
            } else {
                0int
            }) + 2 + row_json_from(bm, r, 0).len(),
            rows_json_from(bm, r + 1) + seq![']'],
        ),
        rows_json_from(bm, r).len() == (if r > 0 {
            1int
        } else {
            0int
        }) + 2 + row_json_from(bm, r, 0).len() + rows_json_from(bm, r + 1).len(),
{
    let rowfrag = seq!['['] + row_json_from(bm, r, 0) + seq![']'];
    let rest = rows_json_from(bm, r + 1) + seq![']'];
    if r > 0 {
        assert(rows_json_from(bm, r) + seq![']'] =~= seq![','] + (rowfrag + rest));
        lemma_frag_split(bytes, p, seq![','], rowfrag + rest);
        lemma_frag_split(bytes, p + 1, rowfrag, rest);
    } else {
        assert(rows_json_from(bm, r) + seq![']'] =~= rowfrag + rest);
        lemma_frag_split(bytes, p, rowfrag, rest);
    }
}

/// A canonical input spells its board's serialization byte for byte.
proof fn lemma_canonical_input(st: &str, bytes: Seq<u8>, bm: BoardM)
    requires
        bm.wf(),
        bounded(bm),
        st@ == board_json(bm),
        bytes == st.spec_bytes(),
    ensures
        board_at(bytes, bm),
{
    lemma_board_json_ascii(bm);
    assert(vstd::utf8::is_ascii_chars(st@));
    vstd::string::is_ascii_spec_bytes(st);
    assert(bytes =~= bytes_of(board_json(bm)));
    assert(bytes.subrange(0, board_json(bm).len() as int) =~= bytes_of(board_json(bm)));
}

/// Parse a board from its durable textual form. Exactly the strings that
/// `board_to_json` produces for a well-formed board are accepted: every such
/// string parses to a board that serializes back to it, character for
/// character, and no other string is accepted.
#[verifier::loop_isolation(false)]
#[verifier::rlimit(80)]
pub fn board_from_json(s: &str) -> (r: Option<Board>)
    ensures
        (match r {
            Some(b) => b.wf() && s@ == board_json(b@),
            None => true,
        }),
        (exists|bm: BoardM| bm.wf() && bounded(bm) && s@ == board_json(bm)) ==> r is Some,
        forall|bm: BoardM|
            bm.wf() && bounded(bm) && s@ == #[trigger] board_json(bm) ==> (r matches Some(b)
                && b@ == bm),
{
    proof {
        reveal_strlit("[");
        reveal_strlit("]");
        assert("["@ =~= seq!['[']);
        assert("]"@ =~= seq![']']);
    }
    let bytes = s.as_bytes();
    let n = bytes.len();
    proof {
        assert forall|bm: BoardM|
            bm.wf() && bounded(bm) && s@ == #[trigger] board_json(bm) implies board_at(
            bytes@,
            bm,
        ) by {
            lemma_canonical_input(s, bytes@, bm);
        }
    }
    let mut cells: Vec<Cell> = Vec::new();
    let mut p = match match_lit(bytes, 0, "[") {
        None => {
            proof {
                assert forall|bm: BoardM| !(#[trigger] board_at(bytes@, bm)) by {
                    if board_at(bytes@, bm) {
                        assert(board_json(bm) =~= seq!['['] + (rows_json_from(bm, 0)
                            + seq![']']));
                        lemma_frag_split(
                            bytes@,
                            0,
                            seq!['['],
                            rows_json_from(bm, 0) + seq![']'],
                        );
                        assert(frag_at(bytes@, 0, "["@));
                    }
                }
            }
            return None;
        },
        Some(q) => q,
    };
    proof {
        assert forall|bm: BoardM| #[trigger] board_at(bytes@, bm) implies frag_at(
            bytes@,
            1,
            rows_json_from(bm, 0) + seq![']'],
        ) by {
            assert(board_json(bm) =~= seq!['['] + (rows_json_from(bm, 0) + seq![']']));
            lemma_frag_split(bytes@, 0, seq!['['], rows_json_from(bm, 0) + seq![']']);
        }
        assert(p == 1);
    }
    let (cols, p1) = match scan_row(bytes, p, &mut cells) {
        None => {
            proof {
                assert forall|bm: BoardM| !(#[trigger] board_at(bytes@, bm)) by {
                    if board_at(bytes@, bm) {
                        lemma_rows_step(bytes@, 1, bm, 0);
                        assert(row_at(bytes@, 1, bm, 0));
                    }
                }
            }
            return None;
        },
        Some(kp) => kp,
    };
    p = p1;
    let mut rows: usize = 1;
    proof {
        assert forall|bm: BoardM| #[trigger] board_at(bytes@, bm) implies (1 <= rows
            <= bm.rows && cols == bm.cols && frag_at(
            bytes@,
            p as int,
            rows_json_from(bm, rows as int) + seq![']'],
        ) && p == 1 + rows_json_from(bm, 0).len() - rows_json_from(bm, rows as int).len()
            && cells@ == board_cells(bm, rows as int)) by {
            lemma_rows_step(bytes@, 1, bm, 0);
            assert(row_at(bytes@, 1, bm, 0));
            assert(cells@ == Seq::<Cell>::empty() + row_cells(bm, 0, bm.cols));
            assert(cells@ =~= board_cells(bm, 1)) by {
                assert(1 * bm.cols == bm.cols) by (nonlinear_arith);
                assert forall|i: int| 0 <= i < bm.cols implies cells@[i] == board_cells(
                    bm,
                    1,
                )[i] by {
                    assert(cells@[i] == row_cells(bm, 0, bm.cols)[i]);
                    assert(bm.idx(0, i) == i);
                }
            }
        }
    }
    while p < n && bytes[p] == 44
        invariant
            0 < p <= n,
            n == bytes@.len(),
            rows >= 1,
            forall|j: int|
                0 <= j < cells@.len() ==> cell_wf(crate::board::cell_m(
                    #[trigger] cells@[j],
                )),
            forall|bm: BoardM|
                #[trigger] board_at(bytes@, bm) ==> (1 <= rows <= bm.rows && cols == bm.cols
                    && frag_at(
                    bytes@,
                    p as int,
                    rows_json_from(bm, rows as int) + seq![']'],
                ) && p == 1 + rows_json_from(bm, 0).len() - rows_json_from(
                    bm,
                    rows as int,
                ).len() && cells@ == board_cells(bm, rows as int)),
        decreases n - p,
    {
        let ghost rg = rows as int;
        let ghost pg = p as int;
        let ghost cells_prev = cells@;
        let (k, p2) = match scan_row(bytes, p + 1, &mut cells) {
            None => {
                proof {
                    assert forall|bm: BoardM| !(#[trigger] board_at(bytes@, bm)) by {
                        if board_at(bytes@, bm) {
                            if rg == bm.rows {
                                lemma_frag_byte(
                                    bytes@,
                                    pg,
                                    rows_json_from(bm, rg) + seq![']'],
                                    0,
                                );
                            } else {
                                lemma_rows_step(bytes@, pg, bm, rg);
                                assert(row_at(bytes@, pg + 1, bm, rg));
                            }
                        }
                    }
                }
                return None;
            },
            Some(kp) => kp,
        };
        if k != cols {
            proof {
                assert forall|bm: BoardM| !(#[trigger] board_at(bytes@, bm)) by {
                    if board_at(bytes@, bm) {
                        if rg == bm.rows {
                            lemma_frag_byte(bytes@, pg, rows_json_from(bm, rg) + seq![']'], 0);
                        } else {
                            lemma_rows_step(bytes@, pg, bm, rg);
                            assert(row_at(bytes@, pg + 1, bm, rg));
                        }
                    }
                }
            }
            return None;
        }
        p = p2;
        if rows == usize::MAX {
            proof {
                assert forall|bm: BoardM| !(#[trigger] board_at(bytes@, bm)) by {
                    if board_at(bytes@, bm) {
                        assert(rg <= bm.rows <= MAX_DIM);
                    }
                }
            }
            return None;
        }
        rows = rows + 1;
        proof {
            assert forall|bm: BoardM| #[trigger] board_at(bytes@, bm) implies (1 <= rows
                <= bm.rows && cols == bm.cols && frag_at(
                bytes@,
                p as int,
                rows_json_from(bm, rows as int) + seq![']'],
            ) && p == 1 + rows_json_from(bm, 0).len() - rows_json_from(
                bm,
                rows as int,
            ).len() && cells@ == board_cells(bm, rows as int)) by {
                if rg == bm.rows {
                    lemma_frag_byte(bytes@, pg, rows_json_from(bm, rg) + seq![']'], 0);
                    assert(false);
                } else {
                    lemma_rows_step(bytes@, pg, bm, rg);
                    assert(row_at(bytes@, pg + 1, bm, rg));
                    assert(cells@ == cells_prev + row_cells(bm, rg, bm.cols));
                    assert(cells@ =~= board_cells(bm, rg + 1)) by {
                        assert((rg + 1) * bm.cols == rg * bm.cols + bm.cols)
                            by (nonlinear_arith);
                        assert(rg * bm.cols >= 0) by (nonlinear_arith)
                            requires
                                rg >= 0,
                                bm.cols >= 0,
                            ;
                        assert forall|i: int|
                            0 <= i < (rg + 1) * bm.cols implies cells@[i] == board_cells(
                            bm,
                            rg + 1,
                        )[i] by {
                            if i < rg * bm.cols {
                                assert(cells@[i] == cells_prev[i]);
                                assert(cells_prev[i] == board_cells(bm, rg)[i]);
                            } else {
                                assert(cells@[i] == row_cells(bm, rg, bm.cols)[i - rg
                                    * bm.cols]);
                                assert(bm.idx(rg, i - rg * bm.cols) == i);
                            }
                        }
                    }
                }
            }
        }
    }
    let p3 = match match_lit(bytes, p, "]") {
        None => {
            proof {
                assert forall|bm: BoardM| !(#[trigger] board_at(bytes@, bm)) by {
                    if board_at(bytes@, bm) {
                        if (rows as int) < bm.rows {
                            lemma_rows_step(bytes@, p as int, bm, rows as int);
                            lemma_frag_byte(bytes@, p as int, seq![','], 0);
                        } else {
                            assert(rows_json_from(bm, rows as int) + seq![']'] =~= seq![
                                ']'
                            ]);
                            assert(frag_at(bytes@, p as int, "]"@));
                        }
                    }
                }
            }
            return None;
        },
        Some(q) => q,
    };
    proof {
        assert forall|bm: BoardM| #[trigger] board_at(bytes@, bm) implies (rows == bm.rows
            && p3 == n && cells@ == board_cells(bm, bm.rows)) by {
            if (rows as int) < bm.rows {
                lemma_rows_step(bytes@, p as int, bm, rows as int);
                lemma_frag_byte(bytes@, p as int, seq![','], 0);
                assert(p < n && bytes@[p as int] == 44);
                assert(false);
            }
            assert(rows_json_from(bm, rows as int) =~= Seq::<char>::empty());
            assert(board_json(bm).len() == 2 + rows_json_from(bm, 0).len());
        }
    }
    if p3 != n {
        proof {
            assert forall|bm: BoardM| !(#[trigger] board_at(bytes@, bm)) by {}
        }
        return None;
    }
    if rows < 1 || rows > MAX_DIM || cols < 1 || cols > MAX_DIM {
        proof {
            assert forall|bm: BoardM| !(#[trigger] board_at(bytes@, bm)) by {}
        }
        return None;
    }
    proof {
        assert(rows * cols <= MAX_DIM * MAX_DIM) by (nonlinear_arith)
            requires
                1 <= rows <= MAX_DIM,
                1 <= cols <= MAX_DIM,
            ;
    }
    if cells.len() != rows * cols {
        proof {
            assert forall|bm: BoardM| !(#[trigger] board_at(bytes@, bm)) by {
                if board_at(bytes@, bm) {
                    assert(cells@.len() == bm.rows * bm.cols);
                }
            }
        }
        return None;
    }
    let b = Board { rows, cols, cells };
    proof {
        assert(b@.cells.len() == b@.rows * b@.cols);
        assert forall|j: int| 0 <= j < b@.cells.len() implies cell_wf(
            #[trigger] b@.cells[j],
        ) by {
            assert(b@.cells[j] == crate::board::cell_m(b.cells@[j]));
        }
        assert(b.wf());
        assert forall|bm: BoardM| #[trigger] board_at(bytes@, bm) implies b@ == bm by {
            assert(b@.cells =~= bm.cells) by {
                assert forall|j: int| 0 <= j < bm.cells.len() implies b@.cells[j]
                    == bm.cells[j] by {
                    assert(b.cells@[j] == board_cells(bm, bm.rows)[j]);
                    assert(cell_wf(bm.cells[j]));
                }
            }
        }
    }
    let js = board_to_json(&b);
    let st = s.to_owned();
    if js == st {
        Some(b)
    } else {
        proof {
            assert forall|bm: BoardM|
                !(bm.wf() && bounded(bm) && s@ == #[trigger] board_json(bm)) by {
                if bm.wf() && bounded(bm) && s@ == board_json(bm) {
                    assert(board_at(bytes@, bm));
                    assert(b@ == bm);
                    assert(js@ == board_json(bm));
                    assert(st@ == s@);
                    assert(js@ == st@);
                }
            }
        }
        None
    }
}

/// Every character of a serialized cell is ASCII.
proof fn lemma_cell_json_ascii(cm: crate::board::CellM, i: int)
    requires
        cell_wf(cm),
        0 <= i < cell_json(cm).len(),
    ensures
        ascii_char(cell_json(cm)[i]),
{
    reveal_strlit("{\"orbs\":");
    reveal_strlit(",\"owner\":");
    reveal_strlit("null");
    lemma_dec_of_ascii(cm.orbs);
    if cm.owner is Some {
        lemma_color_name_ascii(cm.owner->0);
    }
}

/// Every character of a serialized row suffix is ASCII.
proof fn lemma_row_json_ascii(b: BoardM, r: int, c: int, i: int)
    requires
        b.wf(),
        0 <= i < row_json_from(b, r, c).len(),
        0 <= r < b.rows,
    ensures
        ascii_char(row_json_from(b, r, c)[i]),
    decreases b.cols - c,
{
    if 0 <= c < b.cols {
        let head = (if c > 0 {
            seq![',']
        } else {
            Seq::<char>::empty()
        }) + cell_json(b.cells[b.idx(r, c)]);
        crate::board::lemma_idx_in_range(b, r, c);
        if i < head.len() {
            if c > 0 && i == 0 {
            } else {
                lemma_cell_json_ascii(b.cells[b.idx(r, c)], i - (if c > 0 { 1int } else { 0int }));
            }
        } else {
            lemma_row_json_ascii(b, r, c + 1, i - head.len());
        }
    }
}

/// Every character of a serialized rows suffix is ASCII.
proof fn lemma_rows_json_ascii(b: BoardM, r: int, i: int)
    requires
        b.wf(),
        0 <= i < rows_json_from(b, r).len(),
    ensures
        ascii_char(rows_json_from(b, r)[i]),
    decreases b.rows - r,
{
    if 0 <= r < b.rows {
        let head = (if r > 0 {
            seq![',']
        } else {
            Seq::<char>::empty()
        }) + seq!['['] + row_json_from(b, r, 0) + seq![']'];
        if i < head.len() {
            let skip = (if r > 0 { 2int } else { 1int });
            if i >= skip && i - skip < row_json_from(b, r, 0).len() {
                lemma_row_json_ascii(b, r, 0, i - skip);
            }
        } else {
            lemma_rows_json_ascii(b, r + 1, i - head.len());
        }
    }
}

/// Every character of a serialized board is ASCII.
pub proof fn lemma_board_json_ascii(b: BoardM)
    requires
        b.wf(),
    ensures
        forall|i: int| 0 <= i < board_json(b).len() ==> ascii_char(#[trigger] board_json(b)[i]),
{
    assert forall|i: int|
        0 <= i < board_json(b).len() implies ascii_char(#[trigger] board_json(b)[i]) by {
        if 1 <= i && i - 1 < rows_json_from(b, 0).len() {
            lemma_rows_json_ascii(b, 0, i - 1);
        }
    }
}

} // verus!
