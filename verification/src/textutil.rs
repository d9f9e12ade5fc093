//! Text helpers: deriving an identifier-shaped slug from a test
//! description, and building the escape sequences the reporters print.

use vstd::prelude::*;

verus! {

/// Relies on `String::push`: appends exactly the one character.
#[verifier::external_body]
fn push_char(s: &mut String, c: char)
    ensures
        final(s)@ == old(s)@.push(c),
{
    s.push(c);
}

/// Whether `c` is an ASCII letter or digit.
pub open spec fn is_ascii_alnum(c: char) -> bool {
    ||| 48 <= c as u32 <= 57
    ||| 65 <= c as u32 <= 90
    ||| 97 <= c as u32 <= 122
}

/// The ASCII lowercase form of `c`; other characters are unchanged.
pub open spec fn lower_char(c: char) -> char {
    if 65 <= c as u32 <= 90 {
        (((c as u32) + 32) as u8) as char
    } else {
        c
    }
}

/// The body of a slug: letters and digits lowered, every run of other
/// characters collapsed into a single separator, with no leading
/// separator. `prev_us` records whether the previous position already
/// ended in a (real or implicit) separator.
pub open spec fn slug_core(s: Seq<char>, prev_us: bool) -> Seq<char>
    decreases s.len(),
{
    if s.len() == 0 {
        Seq::empty()
    } else if is_ascii_alnum(s[0]) {
        seq![lower_char(s[0])] + slug_core(s.drop_first(), false)
    } else if !prev_us {
        seq!['_'] + slug_core(s.drop_first(), true)
    } else {
        slug_core(s.drop_first(), true)
    }
}

/// Remove trailing separators.
pub open spec fn trim_trailing_us(s: Seq<char>) -> Seq<char>
    decreases s.len(),
{
    if s.len() > 0 && s.last() == '_' {
        trim_trailing_us(s.drop_last())
    } else {
        s
    }
}

/// Whether `c` is an ASCII digit.
pub open spec fn is_ascii_digit(c: char) -> bool {
    48 <= c as u32 <= 57
}

/// The slug of a test description: its lowered words joined by single
/// separators; an empty result falls back to a fixed name, and a leading
/// digit is shielded so the result is identifier-shaped.
pub open spec fn slug_of(s: Seq<char>) -> Seq<char> {
    let core = trim_trailing_us(slug_core(s, true));
    if core.len() == 0 {
        seq!['t', 'e', 's', 't']
    } else if is_ascii_digit(core[0]) {
        seq!['_'] + core
    } else {
        core
    }
}

/// The separator state after processing a prefix: still at a separator
/// when nothing was processed yet, or when the last processed character
/// was no letter or digit.
pub open spec fn slug_state(s: Seq<char>, p0: bool) -> bool {
    if s.len() == 0 {
        p0
    } else {
        !is_ascii_alnum(s.last())
    }
}

/// The contribution of one more character to the slug body.
pub open spec fn slug_contrib(c: char, prev_us: bool) -> Seq<char> {
    if is_ascii_alnum(c) {
        seq![lower_char(c)]
    } else if !prev_us {
        seq!['_']
    } else {
        Seq::empty()
    }
}

/// Processing one more character appends exactly its contribution.
proof fn lemma_slug_core_snoc(s: Seq<char>, c: char, p0: bool)
    ensures
        slug_core(s.push(c), p0) == slug_core(s, p0) + slug_contrib(c, slug_state(s, p0)),
    decreases s.len(),
{
    if s.len() == 0 {
        assert(s.push(c).drop_first() =~= Seq::<char>::empty());
        assert(slug_core(Seq::<char>::empty(), false) =~= Seq::<char>::empty());
        assert(slug_core(Seq::<char>::empty(), true) =~= Seq::<char>::empty());
        assert(slug_core(s.push(c), p0) =~= slug_contrib(c, p0));
        assert(slug_core(s, p0) + slug_contrib(c, p0) =~= slug_contrib(c, p0));
    } else {
        assert(s.push(c)[0] == s[0]);
        assert(s.push(c).drop_first() =~= s.drop_first().push(c));
        if is_ascii_alnum(s[0]) {
            lemma_slug_core_snoc(s.drop_first(), c, false);
            assert(slug_state(s.drop_first(), false) == slug_state(s, p0)) by {
                if s.len() > 1 {
                    assert(s.drop_first().last() == s.last());
                }
            }
            assert(seq![lower_char(s[0])] + (slug_core(s.drop_first(), false) + slug_contrib(
                c,
                slug_state(s, p0),
            )) =~= (seq![lower_char(s[0])] + slug_core(s.drop_first(), false)) + slug_contrib(
                c,
                slug_state(s, p0),
            ));
        } else if !p0 {
            lemma_slug_core_snoc(s.drop_first(), c, true);
            assert(slug_state(s.drop_first(), true) == slug_state(s, p0)) by {
                if s.len() > 1 {
                    assert(s.drop_first().last() == s.last());
                }
            }
            assert(seq!['_'] + (slug_core(s.drop_first(), true) + slug_contrib(
                c,
                slug_state(s, p0),
            )) =~= (seq!['_'] + slug_core(s.drop_first(), true)) + slug_contrib(
                c,
                slug_state(s, p0),
            ));
        } else {
            lemma_slug_core_snoc(s.drop_first(), c, true);
            assert(slug_state(s.drop_first(), true) == slug_state(s, p0)) by {
                if s.len() > 1 {
                    assert(s.drop_first().last() == s.last());
                }
            }
        }
    }
}

/// The slug body never holds two adjacent separators, and never starts
/// with one when it begins at a separator state.
proof fn lemma_slug_core_shape(s: Seq<char>, p0: bool)
    ensures
        forall|i: int|
            0 <= i < slug_core(s, p0).len() - 1 ==> !(#[trigger] slug_core(s, p0)[i] == '_'
                && slug_core(s, p0)[i + 1] == '_'),
        p0 && slug_core(s, p0).len() > 0 ==> slug_core(s, p0)[0] != '_',
    decreases s.len(),
{
    if s.len() > 0 {
        let r = slug_core(s, p0);
        if is_ascii_alnum(s[0]) {
            lemma_slug_core_shape(s.drop_first(), false);
            let rest = slug_core(s.drop_first(), false);
            assert(r == seq![lower_char(s[0])] + rest);
            assert(lower_char(s[0]) != '_') by {
                assert(is_ascii_alnum(s[0]));
            }
            assert forall|i: int| 0 <= i < r.len() - 1 implies !(#[trigger] r[i] == '_' && r[i + 1]
                == '_') by {
                if i > 0 {
                    assert(r[i] == rest[i - 1] && r[i + 1] == rest[i]);
                }
            }
        } else if !p0 {
            lemma_slug_core_shape(s.drop_first(), true);
            let rest = slug_core(s.drop_first(), true);
            assert(r == seq!['_'] + rest);
            assert forall|i: int| 0 <= i < r.len() - 1 implies !(#[trigger] r[i] == '_' && r[i + 1]
                == '_') by {
                if i == 0 {
                    if rest.len() > 0 {
                        assert(r[1] == rest[0]);
                        assert(rest[0] != '_');
                    }
                } else {
                    assert(r[i] == rest[i - 1] && r[i + 1] == rest[i]);
                }
            }
        } else {
            lemma_slug_core_shape(s.drop_first(), true);
        }
    }
}

/// Trimming is a no-op on a sequence without a trailing separator.
proof fn lemma_trim_noop(s: Seq<char>)
    requires
        s.len() == 0 || s.last() != '_',
    ensures
        trim_trailing_us(s) == s,
{
}

/// Derive the identifier-shaped slug of a test description: ASCII letters
/// and digits are kept (lowered), every other run of characters becomes a
/// single separator, trailing separators are dropped, an empty result
/// falls back to a fixed name, and a leading digit is shielded.
pub fn slugify(s: &str) -> (r: String)
    ensures
        r@ == slug_of(s@),
{
    let len = s.unicode_len();
    let mut buf: Vec<char> = Vec::new();
    let mut prev_us = true;
    let mut i: usize = 0;
    proof {
        assert(s@.take(0) =~= Seq::<char>::empty());
    }
    while i < len
        invariant
            len == s@.len(),
            i <= len,
            buf@ == slug_core(s@.take(i as int), true),
            prev_us == slug_state(s@.take(i as int), true),
        decreases len - i,
    {
        let c = s.get_char(i);
        let cv = c as u32;
        proof {
            assert(s@.take(i + 1int) =~= s@.take(i as int).push(s@[i as int]));
            lemma_slug_core_snoc(s@.take(i as int), s@[i as int], true);
        }
        if (48 <= cv && cv <= 57) || (65 <= cv && cv <= 90) || (97 <= cv && cv <= 122) {
            let lc = if 65 <= cv && cv <= 90 {
                ((cv + 32) as u8) as char
            } else {
                c
            };
            buf.push(lc);
            prev_us = false;
        } else if !prev_us {
            buf.push('_');
            prev_us = true;
        }
        proof {
            assert(s@.take(i + 1int).last() == s@[i as int]);
        }
        i = i + 1;
    }
    proof {
        assert(s@.take(len as int) =~= s@);
        lemma_slug_core_shape(s@, true);
    }
    let ghost whole = slug_core(s@, true);
    if buf.len() > 0 {
        let last_is_us = buf[buf.len() - 1] == '_';
        if last_is_us {
            proof {
                if whole.len() >= 2 && whole[whole.len() - 2] == '_' {
                    assert(whole[whole.len() - 2] == '_' && whole[whole.len() - 2 + 1] == '_');
                    assert(false);
                }
                assert(whole.drop_last().len() == 0 || whole.drop_last().last() != '_');
                lemma_trim_noop(whole.drop_last());
            }
            buf.pop();
        } else {
            proof {
                lemma_trim_noop(whole);
            }
        }
    } else {
        proof {
            lemma_trim_noop(whole);
        }
    }
    proof {
        assert(buf@ == trim_trailing_us(slug_core(s@, true)));
    }
    let mut out = new_string();
    if buf.len() == 0 {
        push_char(&mut out, 't');
        push_char(&mut out, 'e');
        push_char(&mut out, 's');
        push_char(&mut out, 't');
        proof {
            assert(out@ =~= slug_of(s@));
        }
        return out;
    }
    let c0 = buf[0];
    if 48 <= (c0 as u32) && (c0 as u32) <= 57 {
        push_char(&mut out, '_');
    }
    let ghost head = out@;
    let mut j: usize = 0;
    while j < buf.len()
        invariant
            j <= buf@.len(),
            out@ == head + buf@.take(j as int),
        decreases buf@.len() - j,
    {
        proof {
            assert(buf@.take(j + 1int) =~= buf@.take(j as int).push(buf@[j as int]));
        }
        push_char(&mut out, buf[j]);
        j = j + 1;
    }
    proof {
        assert(buf@.take(buf@.len() as int) =~= buf@);
        assert(out@ =~= slug_of(s@));
    }
    out
}

/// Relies on `String::new`: the fresh string is empty.
#[verifier::external_body]
fn new_string() -> (r: String)
    ensures
        r@ =~= Seq::<char>::empty(),
{
    String::new()
}

/// The escape sequence that returns the terminal to its default style.
pub open spec fn reset_seq() -> Seq<char> {
    seq!['\u{1b}', '[', '0', 'm']
}

/// The style-reset escape sequence.
pub fn reset() -> (r: String)
    ensures
        r@ == reset_seq(),
{
    let mut out = new_string();
    push_char(&mut out, '\u{1b}');
    push_char(&mut out, '[');
    push_char(&mut out, '0');
    push_char(&mut out, 'm');
    proof {
        assert(out@ =~= reset_seq());
    }
    out
}

/// The digit character for a value below ten.
pub open spec fn digit_char(d: nat) -> char {
    ((48 + d) as u8) as char
}

/// The decimal digits of `n`, most significant first.
pub open spec fn dec_digits(n: nat) -> Seq<char>
    decreases n,
{
    if n < 10 {
        seq![digit_char(n)]
    } else {
        dec_digits(n / 10).push(digit_char(n % 10))
    }
}

/// Append the decimal form of a byte value.
fn push_u8_dec(s: &mut String, n: u8)
    ensures
        final(s)@ == old(s)@ + dec_digits(n as nat),
{
    let ghost base = s@;
    if n >= 100 {
        push_char(s, (48 + n / 100) as char);
        push_char(s, (48 + (n / 10) % 10) as char);
        push_char(s, (48 + n % 10) as char);
        proof {
            let m = n as nat;
            assert(m / 10 >= 10 && m / 10 <= 25 && (m / 10) / 10 == m / 100 && m / 100 < 10)
                by (nonlinear_arith)
                requires
                    100 <= m <= 255,
            ;
            assert(dec_digits(m / 100) =~= seq![digit_char(m / 100)]);
            assert(dec_digits(m / 10) =~= seq![
                digit_char(m / 100),
                digit_char((m / 10) % 10),
            ]);
            assert(dec_digits(m) =~= seq![
                digit_char(m / 100),
                digit_char((m / 10) % 10),
                digit_char(m % 10),
            ]);
            assert(base + dec_digits(m) =~= s@);
        }
    } else if n >= 10 {
        push_char(s, (48 + n / 10) as char);
        push_char(s, (48 + n % 10) as char);
        proof {
            let m = n as nat;
            assert(m / 10 < 10 && m / 10 >= 1) by (nonlinear_arith)
                requires
                    10 <= m < 100,
            ;
            assert(dec_digits(m / 10) =~= seq![digit_char(m / 10)]);
            assert(dec_digits(m) =~= seq![digit_char(m / 10), digit_char(m % 10)]);
            assert(base + dec_digits(m) =~= s@);
        }
    } else {
        push_char(s, (48 + n) as char);
        proof {
            assert(base + dec_digits(n as nat) =~= s@);
        }
    }
}

/// The escape sequence selecting a 24-bit foreground color.
pub open spec fn fg_seq(r: u8, g: u8, b: u8) -> Seq<char> {
    seq!['\u{1b}', '[', '3', '8', ';', '2', ';'] + dec_digits(r as nat) + seq![';'] + dec_digits(
        g as nat,
    ) + seq![';'] + dec_digits(b as nat) + seq!['m']
}

/// The escape sequence selecting the 24-bit foreground color `r`, `g`,
/// `b`, ready to be written to a terminal.
pub fn fg(r: u8, g: u8, b: u8) -> (out: String)
    ensures
        out@ == fg_seq(r, g, b),
{
    let mut out = new_string();
    push_char(&mut out, '\u{1b}');
    push_char(&mut out, '[');
    push_char(&mut out, '3');
    push_char(&mut out, '8');
    push_char(&mut out, ';');
    push_char(&mut out, '2');
    push_char(&mut out, ';');
    push_u8_dec(&mut out, r);
    push_char(&mut out, ';');
    push_u8_dec(&mut out, g);
    push_char(&mut out, ';');
    push_u8_dec(&mut out, b);
    push_char(&mut out, 'm');
    proof {
        assert(out@ =~= fg_seq(r, g, b));
    }
    out
}

/// Wrap `text` in the given style code and a trailing reset when color is
/// on; hand the text back bare when it is off.
pub fn styled(code: &str, text: &str, color: bool) -> (r: String)
    ensures
        r@ == (if color {
            code@ + text@ + reset_seq()
        } else {
            text@
        }),
{
    if color {
        let mut out = String::from_str(code);
        out.append(text);
        let rst = reset();
        out.append(rst.as_str());
        proof {
            assert(out@ =~= code@ + text@ + reset_seq());
        }
        out
    } else {
        String::from_str(text)
    }
}

} // verus!
