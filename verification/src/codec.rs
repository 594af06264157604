//! The canonical string codec of the engine.
//!
//! An encoded DNA is `<pool_size> ":" <gene_size> ":" <bits>`: the two
//! sizes in canonical decimal (no leading zero, value at most 65535),
//! then exactly `pool_size * gene_size` characters `'0'` / `'1'`, the
//! genes in order and each gene's bits in order. The alphabet is ASCII
//! digits and `':'`, the empty string is never valid, and the encoding
//! is a bijection between well-formed DNA values and valid strings.

use vstd::prelude::*;
use vstd::string::{StrSliceExecFns, StringExecFns};

use crate::dna::{Gene, GenomeError, DNA};

verus! {

/// Decimal digit characters.
pub open spec fn is_digit(c: char) -> bool {
    '0' <= c <= '9'
}

/// The numeric value of a digit character.
pub open spec fn digit_val(c: char) -> nat {
    (c as int - '0' as int) as nat
}

/// The digit character of a value below ten.
pub open spec fn digit_char(d: nat) -> char {
    if d == 0 {
        '0'
    } else if d == 1 {
        '1'
    } else if d == 2 {
        '2'
    } else if d == 3 {
        '3'
    } else if d == 4 {
        '4'
    } else if d == 5 {
        '5'
    } else if d == 6 {
        '6'
    } else if d == 7 {
        '7'
    } else if d == 8 {
        '8'
    } else {
        '9'
    }
}

/// The canonical decimal rendering of `n`: most significant digit first,
/// no leading zero, `"0"` for zero.
pub open spec fn dec_chars(n: nat) -> Seq<char>
    decreases n,
{
    if n < 10 {
        seq![digit_char(n)]
    } else {
        dec_chars(n / 10).push(digit_char(n % 10))
    }
}

/// The value of a digit string, most significant digit first.
pub open spec fn dec_val(s: Seq<char>) -> nat
    decreases s.len(),
{
    if s.len() == 0 {
        0
    } else {
        dec_val(s.drop_last()) * 10 + digit_val(s.last())
    }
}

pub open spec fn all_digits(s: Seq<char>) -> bool {
    forall|i: int| 0 <= i < s.len() ==> is_digit(#[trigger] s[i])
}

/// A canonical decimal string: nonempty, digits only, and no leading zero
/// unless it is exactly `"0"`.
pub open spec fn canonical_dec(s: Seq<char>) -> bool {
    &&& s.len() >= 1
    &&& all_digits(s)
    &&& s.len() > 1 ==> s[0] != '0'
}

/// The character of one bit.
pub open spec fn bit_char(b: bool) -> char {
    if b {
        '1'
    } else {
        '0'
    }
}

/// The bit block of a gene pool of uniform width `g`: bit `j` of gene `i`
/// at offset `i * g + j`.
pub open spec fn pool_chars(genes: Seq<Seq<bool>>, g: nat) -> Seq<char> {
    Seq::new(
        genes.len() * g,
        |k: int| bit_char(genes[k / (g as int)][k % (g as int)]),
    )
}

/// A gene pool of exactly `p` genes, each exactly `g` bits wide.
pub open spec fn shaped(p: nat, g: nat, genes: Seq<Seq<bool>>) -> bool {
    &&& genes.len() == p
    &&& forall|i: int| 0 <= i < genes.len() ==> (#[trigger] genes[i]).len() == g
}

/// The canonical encoding of a gene pool with its shape.
pub open spec fn encode_chars(p: nat, g: nat, genes: Seq<Seq<bool>>) -> Seq<char> {
    dec_chars(p) + seq![':'] + dec_chars(g) + seq![':'] + pool_chars(genes, g)
}

/// `t` is a shape-correct decoding witness for the string `s`.
pub open spec fn spec_encodes(s: Seq<char>, t: (u16, u16, Seq<Seq<bool>>)) -> bool {
    &&& shaped(t.0 as nat, t.1 as nat, t.2)
    &&& s == encode_chars(t.0 as nat, t.1 as nat, t.2)
}

/// A string is valid exactly when some well-formed DNA encodes to it.
pub open spec fn spec_is_valid(s: Seq<char>) -> bool {
    exists|t: (u16, u16, Seq<Seq<bool>>)| #[trigger] spec_encodes(s, t)
}

/// The decoding of a valid string (well defined by encoding injectivity).
pub open spec fn spec_decode(s: Seq<char>) -> (u16, u16, Seq<Seq<bool>>) {
    choose|t: (u16, u16, Seq<Seq<bool>>)| #[trigger] spec_encodes(s, t)
}

/// Digit characters round-trip through their values.
pub proof fn lemma_digit_char_val(d: nat)
    requires
        d < 10,
    ensures
        is_digit(digit_char(d)),
        digit_val(digit_char(d)) == d,
{
}

/// A digit character is recovered from its value.
pub proof fn lemma_digit_val_char(c: char)
    requires
        is_digit(c),
    ensures
        digit_val(c) < 10,
        digit_char(digit_val(c)) == c,
{
    assert(c as int - '0' as int >= 0);
    assert(c as int - '0' as int <= 9);
}

/// The canonical decimal rendering is canonical and evaluates back to the
/// number it renders.
pub proof fn lemma_dec_chars(n: nat)
    ensures
        canonical_dec(dec_chars(n)),
        dec_val(dec_chars(n)) == n,
        n >= 1 ==> dec_chars(n)[0] != '0',
        n < 10 <==> dec_chars(n).len() == 1,
    decreases n,
{
    if n < 10 {
        lemma_digit_char_val(n);
        assert(dec_chars(n) == seq![digit_char(n)]);
        assert(dec_chars(n).drop_last() =~= Seq::<char>::empty());
        assert(dec_val(Seq::<char>::empty()) == 0);
        assert(dec_chars(n).last() == digit_char(n));
    } else {
        lemma_dec_chars(n / 10);
        lemma_digit_char_val(n % 10);
        let s = dec_chars(n);
        let head = dec_chars(n / 10);
        assert(s == head.push(digit_char(n % 10)));
        assert(s.drop_last() =~= head);
        assert(s.last() == digit_char(n % 10));
        vstd::arithmetic::div_mod::lemma_fundamental_div_mod(n as int, 10);
        assert(dec_val(s) == (n / 10) * 10 + n % 10);
        assert(n / 10 >= 1);
        assert(s[0] == head[0]);
        assert(forall|i: int| 0 <= i < s.len() ==> is_digit(#[trigger] s[i]));
    }
}

/// A canonical digit string whose first digit is not `'0'` has a positive
/// value.
pub proof fn lemma_dec_val_pos(s: Seq<char>)
    requires
        canonical_dec(s),
        s[0] != '0',
    ensures
        dec_val(s) >= 1,
    decreases s.len(),
{
    if s.len() == 1 {
        lemma_digit_val_char(s[0]);
        assert(digit_val(s[0]) >= 1);
    } else {
        let h = s.drop_last();
        assert(h[0] == s[0]);
        assert(all_digits(h)) by {
            assert(forall|i: int| 0 <= i < h.len() ==> h[i] == s[i] && is_digit(#[trigger] s[i]));
        }
        lemma_dec_val_pos(h);
    }
}

/// A canonical digit string is the canonical rendering of its own value:
/// the decimal codec is a bijection.
pub proof fn lemma_canonical_dec_chars(s: Seq<char>)
    requires
        canonical_dec(s),
    ensures
        dec_chars(dec_val(s)) == s,
    decreases s.len(),
{
    let n = dec_val(s);
    if s.len() == 1 {
        lemma_digit_val_char(s[0]);
        assert(s.drop_last() =~= Seq::<char>::empty());
        assert(dec_val(Seq::<char>::empty()) == 0);
        assert(s.last() == s[0]);
        assert(n == digit_val(s[0]));
        assert(dec_chars(n) =~= s);
    } else {
        let h = s.drop_last();
        assert(h[0] == s[0]);
        assert(all_digits(h)) by {
            assert(forall|i: int| 0 <= i < h.len() ==> h[i] == s[i] && is_digit(#[trigger] s[i]));
        }
        assert(canonical_dec(h));
        lemma_dec_val_pos(h);
        lemma_digit_val_char(s.last());
        let m = dec_val(h);
        let d = digit_val(s.last());
        assert(n == m * 10 + d);
        assert(m * 10 >= 10) by (nonlinear_arith)
            requires
                m >= 1,
        ;
        vstd::arithmetic::div_mod::lemma_fundamental_div_mod_converse_div(
            n as int,
            10,
            m as int,
            d as int,
        );
        vstd::arithmetic::div_mod::lemma_fundamental_div_mod_converse_mod(
            n as int,
            10,
            m as int,
            d as int,
        );
        lemma_canonical_dec_chars(h);
        assert(dec_chars(n) == dec_chars(m).push(digit_char(d)));
        assert(dec_chars(n) =~= s);
    }
}

/// The value of a prefix of a digit string never exceeds the whole.
pub proof fn lemma_dec_val_take(s: Seq<char>, m: int)
    requires
        0 <= m <= s.len(),
    ensures
        dec_val(s.take(m)) <= dec_val(s),
    decreases s.len(),
{
    if m == s.len() {
        assert(s.take(m) =~= s);
    } else {
        assert(s.take(m) =~= s.drop_last().take(m));
        lemma_dec_val_take(s.drop_last(), m);
        assert(dec_val(s.drop_last()) * 10 + digit_val(s.last()) >= dec_val(s.drop_last()));
    }
}

/// Where one bit of one gene lands in the bit block.
pub proof fn lemma_pool_chars_index(genes: Seq<Seq<bool>>, g: nat, i: int, j: int)
    requires
        0 <= i < genes.len(),
        0 <= j < g,
    ensures
        0 <= i * g + j < genes.len() * g,
        pool_chars(genes, g)[i * g + j] == bit_char(genes[i][j]),
{
    vstd::arithmetic::mul::lemma_mul_nonnegative(i, g as int);
    vstd::arithmetic::div_mod::lemma_fundamental_div_mod_converse_div(
        i * g + j,
        g as int,
        i,
        j,
    );
    vstd::arithmetic::div_mod::lemma_fundamental_div_mod_converse_mod(
        i * g + j,
        g as int,
        i,
        j,
    );
    vstd::arithmetic::mul::lemma_mul_is_distributive_add_other_way(g as int, i, 1);
    vstd::arithmetic::mul::lemma_mul_inequality(i + 1, genes.len() as int, g as int);
}

/// Every character of an encoding is ASCII.
pub proof fn lemma_encode_ascii(p: nat, g: nat, genes: Seq<Seq<bool>>)
    ensures
        vstd::utf8::is_ascii_chars(encode_chars(p, g, genes)),
{
    let s = encode_chars(p, g, genes);
    lemma_dec_chars(p);
    lemma_dec_chars(g);
    assert forall|k: int| 0 <= k < s.len() implies '\0' <= #[trigger] s[k] <= '\u{7f}' by {
        let l1 = dec_chars(p).len() as int;
        let lg = dec_chars(g).len() as int;
        if k < l1 {
            assert(s[k] == dec_chars(p)[k]);
            assert(is_digit(dec_chars(p)[k]));
        } else if k == l1 {
            assert(s[k] == ':');
        } else if k < l1 + 1 + lg {
            assert(s[k] == dec_chars(g)[k - l1 - 1]);
            assert(is_digit(dec_chars(g)[k - l1 - 1]));
        } else if k == l1 + 1 + lg {
            assert(s[k] == ':');
        } else {
            let m = k - (l1 + 1 + lg + 1);
            assert(s[k] == pool_chars(genes, g)[m]);
            assert(pool_chars(genes, g)[m] == bit_char(
                genes[m / (g as int)][m % (g as int)],
            ));
        }
    }
}

/// The one-character string of a decimal digit.
fn digit_str(d: u16) -> (r: &'static str)
    requires
        d < 10,
    ensures
        r@ == seq![digit_char(d as nat)],
{
    proof {
        reveal_strlit("0");
        reveal_strlit("1");
        reveal_strlit("2");
        reveal_strlit("3");
        reveal_strlit("4");
        reveal_strlit("5");
        reveal_strlit("6");
        reveal_strlit("7");
        reveal_strlit("8");
        reveal_strlit("9");
    }
    let r: &'static str = if d == 0 {
        "0"
    } else if d == 1 {
        "1"
    } else if d == 2 {
        "2"
    } else if d == 3 {
        "3"
    } else if d == 4 {
        "4"
    } else if d == 5 {
        "5"
    } else if d == 6 {
        "6"
    } else if d == 7 {
        "7"
    } else if d == 8 {
        "8"
    } else {
        "9"
    };
    proof {
        assert(r@ =~= seq![digit_char(d as nat)]);
    }
    r
}

/// Appends the canonical decimal rendering of `n`.
fn push_dec(out: &mut String, n: u16)
    ensures
        final(out)@ == old(out)@ + dec_chars(n as nat),
    decreases n,
{
    if n < 10 {
        out.append(digit_str(n));
        proof {
            assert(out@ =~= old(out)@ + dec_chars(n as nat));
        }
    } else {
        proof {
            assert(n / 10 < n) by (nonlinear_arith)
                requires
                    n >= 10,
            ;
        }
        push_dec(out, n / 10);
        out.append(digit_str(n % 10));
        proof {
            assert(dec_chars(n as nat) == dec_chars(n as nat / 10).push(
                digit_char(n as nat % 10),
            ));
            assert(out@ =~= old(out)@ + dec_chars(n as nat));
        }
    }
}

impl DNA {
    /// Encodes a well-formed DNA canonically: the two sizes in decimal,
    /// separated and terminated by `':'`, then every bit in order as `'0'`
    /// or `'1'`. The inverse of `from`.
    pub fn to_string(&self) -> (r: String)
        requires
            self.wf(),
        ensures
            r@ == encode_chars(self.pool_size as nat, self.gene_size as nat, self.bits()),
    {
        proof {
            reveal_strlit(":");
            reveal_strlit("0");
            reveal_strlit("1");
        }
        let ghost pn = self.pool_size as nat;
        let ghost gn = self.gene_size as nat;
        let ghost block = pool_chars(self.bits(), gn);
        let mut out = String::new();
        push_dec(&mut out, self.pool_size);
        out.append(":");
        push_dec(&mut out, self.gene_size);
        out.append(":");
        let ghost hdr = out@;
        proof {
            assert(hdr =~= dec_chars(pn) + seq![':'] + dec_chars(gn) + seq![':']);
        }
        let p = self.pool_size as usize;
        let g = self.gene_size as usize;
        let mut i: usize = 0;
        while i < p
            invariant
                self.wf(),
                i <= p,
                p == self.pool_size,
                g == self.gene_size,
                block == pool_chars(self.bits(), gn),
                gn == self.gene_size as nat,
                out@ == hdr + block.take((i * g) as int),
            decreases p - i,
        {
            let mut j: usize = 0;
            while j < g
                invariant
                    self.wf(),
                    i < p,
                    j <= g,
                    p == self.pool_size,
                    g == self.gene_size,
                    block == pool_chars(self.bits(), gn),
                    gn == self.gene_size as nat,
                    out@ == hdr + block.take((i * g + j) as int),
                decreases g - j,
            {
                proof {
                    lemma_pool_chars_index(self.bits(), gn, i as int, j as int);
                    assert(self.bits()[i as int] == self.genes@[i as int]@);
                }
                let bit = self.genes[i].bits[j];
                let lit: &'static str = if bit {
                    "1"
                } else {
                    "0"
                };
                proof {
                    reveal_strlit("0");
                    reveal_strlit("1");
                    assert(lit@ =~= seq![bit_char(self.bits()[i as int][j as int])]);
                }
                out.append(lit);
                proof {
                    let k = (i * g + j) as int;
                    assert(block.take(k + 1) =~= block.take(k).push(block[k]));
                    assert(out@ =~= hdr + block.take(k + 1));
                }
                j += 1;
            }
            proof {
                vstd::arithmetic::mul::lemma_mul_is_distributive_add_other_way(
                    g as int,
                    i as int,
                    1,
                );
            }
            i += 1;
        }
        proof {
            vstd::arithmetic::mul::lemma_mul_nonnegative(p as int, g as int);
            assert(block.take((p * g) as int) =~= block);
            assert(out@ =~= encode_chars(pn, gn, self.bits()));
        }
        out
    }
}

/// ASCII characters are read back faithfully from their byte codes.
proof fn lemma_ascii_code(c: char, b: u8)
    requires
        '\0' <= c <= '\u{7f}',
        b == c as u8,
    ensures
        c as int == b as int,
        is_digit(c) <==> 48 <= b <= 57,
        (c == ':') <==> b == 58,
        (c == '0') <==> b == 48,
        (c == '1') <==> b == 49,
        is_digit(c) ==> digit_val(c) == b - 48,
{
}

/// A maximal digit run from a fixed start position has one end.
proof fn lemma_run_end_unique(s: Seq<char>, start: int, e1: int, e2: int)
    requires
        start <= e1 <= s.len(),
        start <= e2 <= s.len(),
        forall|k: int| start <= k < e1 ==> is_digit(#[trigger] s[k]),
        forall|k: int| start <= k < e2 ==> is_digit(#[trigger] s[k]),
        e1 == s.len() || !is_digit(s[e1]),
        e2 == s.len() || !is_digit(s[e2]),
    ensures
        e1 == e2,
{
    if e1 < e2 {
        assert(is_digit(s[e1]));
    }
    if e2 < e1 {
        assert(is_digit(s[e2]));
    }
}

/// How an encoding splits into its five segments.
pub proof fn lemma_encode_structure(s: Seq<char>, t: (u16, u16, Seq<Seq<bool>>))
    requires
        spec_encodes(s, t),
    ensures
        ({
            let l1 = dec_chars(t.0 as nat).len() as int;
            let lg = dec_chars(t.1 as nat).len() as int;
            &&& 1 <= l1
            &&& 1 <= lg
            &&& s.len() == l1 + 1 + lg + 1 + t.0 as int * t.1 as int
            &&& s.subrange(0, l1) == dec_chars(t.0 as nat)
            &&& s[l1] == ':'
            &&& s.subrange(l1 + 1, l1 + 1 + lg) == dec_chars(t.1 as nat)
            &&& s[l1 + 1 + lg] == ':'
            &&& s.subrange(l1 + 1 + lg + 1, s.len() as int) == pool_chars(t.2, t.1 as nat)
            &&& canonical_dec(s.subrange(0, l1))
            &&& canonical_dec(s.subrange(l1 + 1, l1 + 1 + lg))
            &&& dec_val(s.subrange(0, l1)) == t.0 as nat
            &&& dec_val(s.subrange(l1 + 1, l1 + 1 + lg)) == t.1 as nat
            &&& forall|k: int| 0 <= k < l1 ==> is_digit(#[trigger] s[k])
            &&& forall|k: int| l1 + 1 <= k < l1 + 1 + lg ==> is_digit(#[trigger] s[k])
        }),
{
    lemma_dec_chars(t.0 as nat);
    lemma_dec_chars(t.1 as nat);
    let a = dec_chars(t.0 as nat);
    let c = dec_chars(t.1 as nat);
    let e = pool_chars(t.2, t.1 as nat);
    let l1 = a.len() as int;
    let lg = c.len() as int;
    assert(s == a + seq![':'] + c + seq![':'] + e);
    assert(e.len() == t.2.len() * t.1 as nat);
    assert(s.subrange(0, l1) =~= a);
    assert(s.subrange(l1 + 1, l1 + 1 + lg) =~= c);
    assert(s.subrange(l1 + 1 + lg + 1, s.len() as int) =~= e);
    assert(forall|k: int| 0 <= k < l1 ==> s[k] == a[k]);
    assert(forall|k: int| l1 + 1 <= k < l1 + 1 + lg ==> s[k] == c[k - l1 - 1]);
}

/// Reassembles a string from its five parsed segments.
proof fn lemma_assemble(s: Seq<char>, p: u16, g: u16, genes: Seq<Seq<bool>>, e1: int, e2: int)
    requires
        shaped(p as nat, g as nat, genes),
        0 <= e1,
        e1 + 1 <= e2,
        e2 + 1 <= s.len(),
        s.subrange(0, e1) == dec_chars(p as nat),
        s[e1] == ':',
        s.subrange(e1 + 1, e2) == dec_chars(g as nat),
        s[e2] == ':',
        s.subrange(e2 + 1, s.len() as int) == pool_chars(genes, g as nat),
    ensures
        spec_encodes(s, (p, g, genes)),
{
    let a = dec_chars(p as nat);
    let c = dec_chars(g as nat);
    let e = pool_chars(genes, g as nat);
    assert(a.len() == e1);
    assert(c.len() == e2 - e1 - 1);
    assert(s =~= a + seq![':'] + c + seq![':'] + e);
}

/// Scans the maximal digit run at `start` and returns its end and value,
/// or nothing when no canonical run of value at most 65535 stands there.
fn scan_number(s: &str, start: usize) -> (r: Option<(usize, u16)>)
    requires
        s.is_ascii(),
        start <= s@.len(),
    ensures
        r matches Some(pair) ==> ({
            &&& start < pair.0 <= s@.len()
            &&& canonical_dec(s@.subrange(start as int, pair.0 as int))
            &&& dec_val(s@.subrange(start as int, pair.0 as int)) == pair.1
            &&& pair.0 == s@.len() || !is_digit(s@[pair.0 as int])
        }),
        r is None ==> forall|end: int|
            #![trigger s@.subrange(start as int, end)]
            start < end <= s@.len() && (end == s@.len() || !is_digit(s@[end])) ==> !(
            canonical_dec(s@.subrange(start as int, end)) && dec_val(
                s@.subrange(start as int, end),
            ) <= 65535),
{
    let n = s.unicode_len();
    if start == n {
        return None;
    }
    let first = s.get_ascii(start);
    proof {
        lemma_ascii_code(s@[start as int], first);
    }
    if first < 48 || first > 57 {
        proof {
            assert forall|end: int|
                start < end <= s@.len() && (end == s@.len() || !is_digit(s@[end])) implies !(
            canonical_dec(#[trigger] s@.subrange(start as int, end)) && dec_val(
                s@.subrange(start as int, end),
            ) <= 65535) by {
                assert(s@.subrange(start as int, end)[0] == s@[start as int]);
            }
        }
        return None;
    }
    if first == 48 {
        // the run "0" is canonical only alone
        if start + 1 < n {
            let c1 = s.get_ascii(start + 1);
            proof {
                lemma_ascii_code(s@[start as int + 1], c1);
            }
            if 48 <= c1 && c1 <= 57 {
                proof {
                    assert forall|end: int|
                        start < end <= s@.len() && (end == s@.len() || !is_digit(s@[end]))
                        implies !(canonical_dec(
                        #[trigger] s@.subrange(start as int, end),
                    ) && dec_val(s@.subrange(start as int, end)) <= 65535) by {
                        let sub = s@.subrange(start as int, end);
                        if end == start + 1 {
                            assert(is_digit(s@[end]));
                        } else {
                            assert(sub[0] == s@[start as int]);
                            assert(sub.len() > 1);
                        }
                    }
                }
                return None;
            }
        }
        proof {
            let sub = s@.subrange(start as int, start as int + 1);
            assert(sub.len() == 1);
            assert(sub[0] == s@[start as int]);
            assert(sub.drop_last() =~= Seq::<char>::empty());
            assert(dec_val(Seq::<char>::empty()) == 0);
            assert(dec_val(sub) == digit_val(s@[start as int]));
        }
        return Some((start + 1, 0));
    }
    let mut k = start + 1;
    let mut acc: u32 = (first - 48) as u32;
    proof {
        let sub = s@.subrange(start as int, start as int + 1);
        assert(sub.len() == 1);
        assert(sub[0] == s@[start as int]);
        assert(sub.drop_last() =~= Seq::<char>::empty());
        assert(dec_val(Seq::<char>::empty()) == 0);
        assert(dec_val(sub) == digit_val(s@[start as int]));
    }
    loop
        invariant
            s.is_ascii(),
            n == s@.len(),
            start < k <= n,
            s@[start as int] != '0',
            forall|m: int| start <= m < k ==> is_digit(#[trigger] s@[m]),
            canonical_dec(s@.subrange(start as int, k as int)),
            acc == dec_val(s@.subrange(start as int, k as int)),
            acc <= 65535,
        decreases n - k,
    {
        if k == n {
            return Some((k, acc as u16));
        }
        let c = s.get_ascii(k);
        proof {
            lemma_ascii_code(s@[k as int], c);
        }
        if c < 48 || c > 57 {
            return Some((k, acc as u16));
        }
        let acc2 = acc * 10 + (c - 48) as u32;
        proof {
            let sub = s@.subrange(start as int, k as int + 1);
            assert(sub.drop_last() =~= s@.subrange(start as int, k as int));
            assert(sub.last() == s@[k as int]);
            assert(dec_val(sub) == acc2);
        }
        if acc2 > 65535 {
            proof {
                assert forall|end: int|
                    start < end <= s@.len() && (end == s@.len() || !is_digit(s@[end])) implies !(
                canonical_dec(#[trigger] s@.subrange(start as int, end)) && dec_val(
                    s@.subrange(start as int, end),
                ) <= 65535) by {
                    let sub = s@.subrange(start as int, end);
                    if end <= k {
                        assert(is_digit(s@[end]));
                    } else {
                        assert(s@.subrange(start as int, k as int + 1) =~= sub.take(
                            k + 1 - start,
                        ));
                        lemma_dec_val_take(sub, k + 1 - start);
                    }
                }
            }
            return None;
        }
        acc = acc2;
        k += 1;
    }
}

/// Digit-ness carries from a subrange back to the string.
proof fn lemma_digits_of_subrange(s: Seq<char>, start: int, end: int)
    requires
        0 <= start <= end <= s.len(),
        all_digits(s.subrange(start, end)),
    ensures
        forall|k: int| start <= k < end ==> is_digit(#[trigger] s[k]),
{
    assert forall|k: int| start <= k < end implies is_digit(s[k]) by {
        assert(s.subrange(start, end)[k - start] == s[k]);
    }
}

/// A bit offset lies inside the bit block.
proof fn lemma_bit_index_bound(p: int, g: int, i: int, j: int)
    requires
        0 <= i < p,
        0 <= j < g,
    ensures
        0 <= i * g + j,
        i * g + j < p * g,
        i * g + g <= p * g,
{
    vstd::arithmetic::mul::lemma_mul_nonnegative(i, g);
    vstd::arithmetic::mul::lemma_mul_is_distributive_add_other_way(g, i, 1);
    vstd::arithmetic::mul::lemma_mul_inequality(i + 1, p, g);
}

/// Appending one gene extends the bit block by that gene's characters.
proof fn lemma_pool_chars_push(genes: Seq<Seq<bool>>, x: Seq<bool>, g: nat)
    requires
        x.len() == g,
    ensures
        pool_chars(genes.push(x), g) == pool_chars(genes, g) + Seq::new(
            g as int as nat,
            |j: int| bit_char(x[j]),
        ),
{
    let l = genes.len() as int;
    let lhs = pool_chars(genes.push(x), g);
    let rhs = pool_chars(genes, g) + Seq::new(g as int as nat, |j: int| bit_char(x[j]));
    vstd::arithmetic::mul::lemma_mul_is_distributive_add_other_way(g as int, l, 1);
    if g == 0 {
        assert(lhs =~= rhs);
    } else {
        assert forall|k: int| 0 <= k < lhs.len() implies lhs[k] == rhs[k] by {
            let i = k / (g as int);
            let j = k % (g as int);
            vstd::arithmetic::div_mod::lemma_fundamental_div_mod(k, g as int);
            vstd::arithmetic::div_mod::lemma_mod_bound(k, g as int);
            vstd::arithmetic::div_mod::lemma_div_pos_is_pos(k, g as int);
            if i < l {
                vstd::arithmetic::mul::lemma_mul_inequality(i + 1, l, g as int);
                vstd::arithmetic::mul::lemma_mul_is_distributive_add_other_way(
                    g as int,
                    i,
                    1,
                );
                assert(k < l * g);
            } else {
                vstd::arithmetic::mul::lemma_mul_inequality(l, i, g as int);
                assert(l * g <= i * g <= k);
                assert(i < l + 1) by {
                    if i >= l + 1 {
                        vstd::arithmetic::mul::lemma_mul_inequality(l + 1, i, g as int);
                    }
                }
                assert(k - l * g == j);
            }
        }
        assert(lhs =~= rhs);
    }
}

impl DNA {
    /// Decodes a canonical encoding, failing with `DecodeError` exactly on
    /// the strings that no well-formed DNA encodes to. The inverse of
    /// `to_string`.
    pub fn from(s: &str) -> (r: Result<DNA, GenomeError>)
        ensures
            r is Ok <==> spec_is_valid(s@),
            r matches Ok(d) ==> d.wf() && spec_encodes(
                s@,
                (d.pool_size, d.gene_size, d.bits()),
            ),
            r is Err ==> r == Err::<DNA, GenomeError>(GenomeError::DecodeError),
    {
        let ghost t = spec_decode(s@);
        proof {
            if spec_is_valid(s@) {
                assert(spec_encodes(s@, t));
                lemma_encode_structure(s@, t);
            }
        }
        let ghost l1 = dec_chars(t.0 as nat).len() as int;
        let ghost lg = dec_chars(t.1 as nat).len() as int;
        if !s.is_ascii() {
            proof {
                if spec_is_valid(s@) {
                    lemma_encode_ascii(t.0 as nat, t.1 as nat, t.2);
                }
            }
            return Err(GenomeError::DecodeError);
        }
        let n = s.unicode_len();
        let (e1, pval) = match scan_number(s, 0) {
            None => {
                proof {
                    if spec_is_valid(s@) {
                        assert(canonical_dec(s@.subrange(0, l1)));
                        assert(!is_digit(s@[l1]));
                    }
                }
                return Err(GenomeError::DecodeError);
            },
            Some(pair) => pair,
        };
        proof {
            if spec_is_valid(s@) {
                lemma_digits_of_subrange(s@, 0, e1 as int);
                lemma_run_end_unique(s@, 0, e1 as int, l1);
                assert(pval == t.0);
            }
        }
        if e1 == n {
            proof {
                if spec_is_valid(s@) {
                    assert(l1 < s@.len());
                }
            }
            return Err(GenomeError::DecodeError);
        }
        let cb1 = s.get_ascii(e1);
        proof {
            lemma_ascii_code(s@[e1 as int], cb1);
        }
        if cb1 != 58 {
            proof {
                if spec_is_valid(s@) {
                    assert(s@[l1] == ':');
                }
            }
            return Err(GenomeError::DecodeError);
        }
        let (e2, gval) = match scan_number(s, e1 + 1) {
            None => {
                proof {
                    if spec_is_valid(s@) {
                        assert(canonical_dec(s@.subrange(l1 + 1, l1 + 1 + lg)));
                        assert(!is_digit(s@[l1 + 1 + lg]));
                    }
                }
                return Err(GenomeError::DecodeError);
            },
            Some(pair) => pair,
        };
        proof {
            if spec_is_valid(s@) {
                lemma_digits_of_subrange(s@, l1 + 1, e2 as int);
                lemma_run_end_unique(s@, l1 + 1, e2 as int, l1 + 1 + lg);
                assert(gval == t.1);
            }
        }
        if e2 == n {
            proof {
                if spec_is_valid(s@) {
                    assert(l1 + 1 + lg < s@.len());
                }
            }
            return Err(GenomeError::DecodeError);
        }
        let cb2 = s.get_ascii(e2);
        proof {
            lemma_ascii_code(s@[e2 as int], cb2);
        }
        if cb2 != 58 {
            proof {
                if spec_is_valid(s@) {
                    assert(s@[l1 + 1 + lg] == ':');
                }
            }
            return Err(GenomeError::DecodeError);
        }
        let base = e2 + 1;
        proof {
            vstd::arithmetic::mul::lemma_mul_upper_bound(
                pval as int,
                65535,
                gval as int,
                65535,
            );
        }
        let need = (pval as u64) * (gval as u64);
        if (n - base) as u64 != need {
            proof {
                if spec_is_valid(s@) {
                    assert(s@.len() == l1 + 1 + lg + 1 + t.0 as int * t.1 as int);
                }
            }
            return Err(GenomeError::DecodeError);
        }
        let p_us = pval as usize;
        let g_us = gval as usize;
        let mut genes: Vec<Gene> = Vec::new();
        let mut pos = base;
        let mut i: usize = 0;
        while i < p_us
            invariant
                s.is_ascii(),
                n as nat == s@.len(),
                t == spec_decode(s@),
                spec_is_valid(s@) ==> spec_encodes(s@, t) && pval == t.0 && gval == t.1,
                base <= n,
                base as int + pval as int * gval as int == n as int,
                p_us == pval,
                g_us == gval,
                i <= p_us,
                pos == base + i * g_us,
                genes@.len() == i,
                forall|a: int| 0 <= a < i ==> (#[trigger] genes@[a])@.len() == gval,
                pool_chars(genes@.map(|q: int, x: Gene| x@), gval as nat) == s@.subrange(
                    base as int,
                    pos as int,
                ),
                spec_is_valid(s@) ==> s@.subrange(base as int, n as int) == pool_chars(
                    t.2,
                    t.1 as nat,
                ),
            decreases p_us - i,
        {
            let ghost pos0 = pos as int;
            let mut bits: Vec<bool> = Vec::new();
            let mut j: usize = 0;
            while j < g_us
                invariant
                    s.is_ascii(),
                    n as nat == s@.len(),
                    spec_is_valid(s@) ==> spec_encodes(s@, t) && pval == t.0 && gval == t.1,
                    base <= n,
                    base as int + pval as int * gval as int == n as int,
                    p_us == pval,
                    g_us == gval,
                    i < p_us,
                    j <= g_us,
                    pos0 == base + i * g_us,
                    pos == pos0 + j,
                    bits@.len() == j,
                    forall|b: int| 0 <= b < j ==> s@[pos0 + b] == bit_char(#[trigger] bits@[b]),
                    spec_is_valid(s@) ==> s@.subrange(base as int, n as int) == pool_chars(
                        t.2,
                        t.1 as nat,
                    ),
                decreases g_us - j,
            {
                proof {
                    lemma_bit_index_bound(p_us as int, g_us as int, i as int, j as int);
                }
                let cb = s.get_ascii(pos);
                proof {
                    lemma_ascii_code(s@[pos as int], cb);
                }
                if cb == 49 {
                    bits.push(true);
                } else if cb == 48 {
                    bits.push(false);
                } else {
                    proof {
                        if spec_is_valid(s@) {
                            let m = pos - base;
                            assert(s@[pos as int] == s@.subrange(base as int, n as int)[m as int]);
                            assert(pool_chars(t.2, t.1 as nat)[m as int] == bit_char(
                                t.2[m as int / (t.1 as int)][m as int % (t.1 as int)],
                            ));
                        }
                    }
                    return Err(GenomeError::DecodeError);
                }
                pos += 1;
                j += 1;
            }
            let ghost bv = bits@;
            proof {
                if g_us > 0 {
                    lemma_bit_index_bound(p_us as int, g_us as int, i as int, 0);
                }
                assert(pos as int <= n as int);
                assert(Seq::new(gval as nat, |b: int| bit_char(bv[b])) =~= s@.subrange(
                    pos0,
                    pos as int,
                ));
            }
            let gene = Gene { bits };
            proof {
                let gb = genes@.map(|q: int, x: Gene| x@);
                assert(gene@ == bv);
                lemma_pool_chars_push(gb, bv, gval as nat);
                assert(genes@.push(gene).map(|q: int, x: Gene| x@) =~= gb.push(bv));
                assert(pool_chars(gb, gval as nat) + Seq::new(
                    gval as nat,
                    |b: int| bit_char(bv[b]),
                ) =~= s@.subrange(base as int, pos as int));
            }
            genes.push(gene);
            i += 1;
        }
        let d = DNA { pool_size: pval, gene_size: gval, genes };
        proof {
            vstd::arithmetic::mul::lemma_mul_nonnegative(pval as int, gval as int);
            assert(pos as int == n as int);
            assert(d.wf());
            assert(shaped(pval as nat, gval as nat, d.bits())) by {
                assert(forall|a: int|
                    0 <= a < d.bits().len() ==> (#[trigger] d.bits()[a]).len() == gval);
            }
            lemma_canonical_dec_chars(s@.subrange(0, e1 as int));
            lemma_canonical_dec_chars(s@.subrange(e1 as int + 1, e2 as int));
            lemma_assemble(s@, pval, gval, d.bits(), e1 as int, e2 as int);
            assert(spec_encodes(s@, (pval, gval, d.bits())));
        }
        Ok(d)
    }

    /// Decides whether a string is a well-formed canonical encoding; the
    /// empty string never is. Linear in the string's length.
    pub fn is_valid(s: &str) -> (r: bool)
        ensures
            r == spec_is_valid(s@),
    {
        match DNA::from(s) {
            Ok(_) => true,
            Err(_) => false,
        }
    }
}

/// The empty string is never a valid encoding: every encoding carries at
/// least the two size fields and their two separators.
pub proof fn lemma_empty_string_invalid()
    ensures
        !spec_is_valid(Seq::<char>::empty()),
{
    assert forall|t: (u16, u16, Seq<Seq<bool>>)| !spec_encodes(Seq::<char>::empty(), t) by {
        if spec_encodes(Seq::<char>::empty(), t) {
            lemma_encode_structure(Seq::<char>::empty(), t);
            vstd::arithmetic::mul::lemma_mul_nonnegative(t.0 as int, t.1 as int);
        }
    }
}

/// Encoding is injective: one string decodes to at most one shaped pool.
pub proof fn lemma_encodes_injective(
    s: Seq<char>,
    t1: (u16, u16, Seq<Seq<bool>>),
    t2: (u16, u16, Seq<Seq<bool>>),
)
    requires
        spec_encodes(s, t1),
        spec_encodes(s, t2),
    ensures
        t1.0 == t2.0,
        t1.1 == t2.1,
        t1.2 == t2.2,
{
    lemma_encode_structure(s, t1);
    lemma_encode_structure(s, t2);
    let a1 = dec_chars(t1.0 as nat).len() as int;
    let a2 = dec_chars(t2.0 as nat).len() as int;
    lemma_run_end_unique(s, 0, a1, a2);
    assert(s.subrange(0, a1) == s.subrange(0, a2));
    assert(t1.0 == t2.0);
    let b1 = a1 + 1 + dec_chars(t1.1 as nat).len() as int;
    let b2 = a1 + 1 + dec_chars(t2.1 as nat).len() as int;
    lemma_run_end_unique(s, a1 + 1, b1, b2);
    assert(t1.1 == t2.1);
    let g = t1.1 as int;
    let p = t1.0 as int;
    assert(pool_chars(t1.2, t1.1 as nat) == pool_chars(t2.2, t2.1 as nat));
    assert forall|i: int| 0 <= i < p implies t1.2[i] == t2.2[i] by {
        if g == 0 {
            assert(t1.2[i] =~= t2.2[i]);
        } else {
            assert forall|j: int| 0 <= j < g implies t1.2[i][j] == t2.2[i][j] by {
                lemma_pool_chars_index(t1.2, t1.1 as nat, i, j);
                lemma_pool_chars_index(t2.2, t2.1 as nat, i, j);
            }
            assert(t1.2[i] =~= t2.2[i]);
        }
    }
    assert(t1.2 =~= t2.2);
}

/// Round-trip law: a valid string is exactly the encoding of its decoding,
/// so re-encoding a decoded DNA reproduces the input string.
pub proof fn lemma_valid_round_trip(s: Seq<char>)
    requires
        spec_is_valid(s),
    ensures
        spec_encodes(s, spec_decode(s)),
        encode_chars(
            spec_decode(s).0 as nat,
            spec_decode(s).1 as nat,
            spec_decode(s).2,
        ) == s,
{
    let t = choose|t: (u16, u16, Seq<Seq<bool>>)| spec_encodes(s, t);
    assert(spec_encodes(s, t));
    assert(spec_encodes(s, spec_decode(s)));
}

/// Round-trip law: every shaped pool is the decoding of its own encoding,
/// so decoding a `to_string` result reproduces the DNA it came from.
pub proof fn lemma_encode_round_trip(t: (u16, u16, Seq<Seq<bool>>))
    requires
        shaped(t.0 as nat, t.1 as nat, t.2),
    ensures
        spec_is_valid(encode_chars(t.0 as nat, t.1 as nat, t.2)),
        spec_decode(encode_chars(t.0 as nat, t.1 as nat, t.2)).0 == t.0,
        spec_decode(encode_chars(t.0 as nat, t.1 as nat, t.2)).1 == t.1,
        spec_decode(encode_chars(t.0 as nat, t.1 as nat, t.2)).2 == t.2,
{
    let s = encode_chars(t.0 as nat, t.1 as nat, t.2);
    assert(spec_encodes(s, t));
    lemma_valid_round_trip(s);
    lemma_encodes_injective(s, spec_decode(s), t);
}

} // verus!
