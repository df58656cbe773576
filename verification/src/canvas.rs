//! The ASCII portable-pixmap encoder.
//!
//! The pixel grid reaches this module as one flat list of channel samples,
//! already clamped and scaled to 0..=255 (three samples per pixel, pixels in
//! row-major order; the clamping of the real-valued colors is the caller's).
//! The encoder emits the `P3` header and the samples as decimal numbers,
//! one image row per text row, wrapping lines between numbers so that no
//! emitted line exceeds 70 characters.

use vstd::prelude::*;

verus! {

/// ASCII code of a decimal digit.
pub open spec fn digit_byte(d: nat) -> u8 {
    (48 + d) as u8
}

/// Decimal notation of `n`, most significant digit first, as ASCII bytes.
pub open spec fn decimal(n: nat) -> Seq<u8>
    decreases n,
{
    if n < 10 {
        seq![digit_byte(n)]
    } else {
        decimal(n / 10).push(digit_byte(n % 10))
    }
}

proof fn lemma_decimal_ascii(n: nat)
    ensures
        forall|i: int| 0 <= i < decimal(n).len() ==> 48 <= #[trigger] decimal(n)[i] < 58,
    decreases n,
{
    if n >= 10 {
        lemma_decimal_ascii(n / 10);
        let prev = decimal(n / 10);
        let whole = decimal(n);
        assert forall|i: int| 0 <= i < whole.len() implies 48 <= #[trigger] whole[i] < 58 by {
            if i < prev.len() {
                assert(whole[i] == prev[i]);
            } else {
                assert(whole[i] == digit_byte(n % 10));
            }
        }
    }
}

proof fn lemma_decimal_len(n: nat)
    ensures
        n < 10 ==> decimal(n).len() == 1,
        n < 100 ==> decimal(n).len() <= 2,
        n < 1000 ==> decimal(n).len() <= 3,
    decreases n,
{
    if n >= 10 {
        lemma_decimal_len(n / 10);
    }
}

/// Decimal notation of `n` as ASCII bytes.
pub fn decimal_digits(n: usize) -> (r: Vec<u8>)
    ensures
        r@ == decimal(n as nat),
    decreases n,
{
    if n < 10 {
        let mut v: Vec<u8> = Vec::new();
        v.push(48 + (n as u8));
        proof {
            assert(v@ =~= decimal(n as nat));
        }
        v
    } else {
        let mut v = decimal_digits(n / 10);
        v.push(48 + ((n % 10) as u8));
        v
    }
}

/// The encoder's state: the finished part of the text, and the line being
/// assembled (with a trailing space after each number on it).
pub struct PpmState {
    /// Finished text: whole lines, each ending in a newline.
    pub out: Seq<u8>,
    /// The unfinished line.
    pub line: Seq<u8>,
}

/// The unfinished line with its trailing space removed.
pub open spec fn chomp(line: Seq<u8>) -> Seq<u8> {
    if line.len() == 0 {
        line
    } else {
        line.drop_last()
    }
}

/// One sample is emitted: if its number would push the line to 70 characters
/// or beyond, the line is finished first; the number and a space go onto the
/// line; at the end of an image row the line is finished.
pub open spec fn ppm_step(st: PpmState, token: Seq<u8>, end_row: bool) -> PpmState {
    let wrapped = if st.line.len() + token.len() >= 70 {
        PpmState { out: st.out + chomp(st.line) + seq![10u8], line: Seq::empty() }
    } else {
        st
    };
    let appended = PpmState { out: wrapped.out, line: wrapped.line + token + seq![32u8] };
    if end_row {
        PpmState { out: appended.out + chomp(appended.line) + seq![10u8], line: Seq::empty() }
    } else {
        appended
    }
}

/// The encoder's state after the first `k` samples.
pub open spec fn ppm_state(width: int, samples: Seq<u8>, k: int) -> PpmState
    decreases k,
{
    if k <= 0 {
        PpmState { out: Seq::empty(), line: Seq::empty() }
    } else {
        ppm_step(
            ppm_state(width, samples, k - 1),
            decimal(samples[k - 1] as nat),
            k % (3 * width) == 0,
        )
    }
}

/// The header: magic `P3`, the size line, and the maximum channel value.
pub open spec fn ppm_header(width: nat, height: nat) -> Seq<u8> {
    seq![80u8, 51u8, 10u8] + decimal(width) + seq![32u8] + decimal(height) + seq![10u8] + decimal(
        255,
    ) + seq![10u8]
}

/// The whole pixmap text as ASCII bytes.
pub open spec fn ppm_text(width: nat, height: nat, samples: Seq<u8>) -> Seq<u8> {
    let st = ppm_state(width as int, samples, samples.len() as int);
    ppm_header(width, height) + st.out + st.line
}

/// The bytes from `i` (inclusive) to `j` (exclusive) contain no newline.
pub open spec fn newline_free(s: Seq<u8>, i: int, j: int) -> bool {
    forall|k: int| i <= k < j ==> s[k] != 10
}

/// Every newline-free stretch of `s` is at most `bound` bytes long: no line
/// of the text exceeds `bound` characters.
pub open spec fn lines_bounded(s: Seq<u8>, bound: int) -> bool {
    forall|i: int, j: int| 0 <= i <= j <= s.len() && newline_free(s, i, j) ==> j - i <= bound
}

pub open spec fn pow10(d: nat) -> nat
    decreases d,
{
    if d == 0 {
        1
    } else {
        10 * pow10((d - 1) as nat)
    }
}

proof fn lemma_decimal_len_bound(n: nat, d: nat)
    requires
        d >= 1,
        n < pow10(d),
    ensures
        decimal(n).len() <= d,
    decreases n,
{
    if n < 10 {
    } else {
        assert(pow10(d) == 10 * pow10((d - 1) as nat));
        if d == 1 {
            assert(pow10(1nat) == 10 * pow10(0nat));
            assert(false);
        }
        assert(n / 10 < pow10((d - 1) as nat)) by (nonlinear_arith)
            requires
                n < pow10(d),
                pow10(d) == 10 * pow10((d - 1) as nat),
                n >= 10,
        ;
        lemma_decimal_len_bound(n / 10, (d - 1) as nat);
    }
}

/// Finishing a line keeps the finished text's lines at 69 bytes or less and
/// its last byte a newline.
proof fn lemma_out_extend(out: Seq<u8>, line: Seq<u8>)
    requires
        out.len() == 0 || out.last() == 10,
        lines_bounded(out, 69),
        line.len() <= 70,
        newline_free(line, 0, line.len() as int),
    ensures
        (out + chomp(line) + seq![10u8]).last() == 10,
        lines_bounded(out + chomp(line) + seq![10u8], 69),
{
    let chomped = chomp(line);
    let new = out + chomped + seq![10u8];
    assert(chomped.len() <= 69);
    assert(newline_free(chomped, 0, chomped.len() as int)) by {
        assert forall|k: int| 0 <= k < chomped.len() implies chomped[k] != 10 by {
            assert(chomped[k] == line[k]);
        }
    }
    assert forall|i: int, j: int|
        0 <= i <= j <= new.len() && newline_free(new, i, j) implies j - i <= 69 by {
        if i < out.len() && out.len() < j {
            assert(new[out.len() - 1] == out.last());
            assert(out.last() != 10);
            assert(false);
        } else if j <= out.len() {
            assert(newline_free(out, i, j)) by {
                assert forall|k: int| i <= k < j implies out[k] != 10 by {
                    assert(new[k] == out[k]);
                }
            }
        } else {
            assert(i >= out.len());
            if j == new.len() {
                if i < j {
                    assert(new[j - 1] == 10);
                    assert(false);
                }
            } else {
                assert(j - i <= chomped.len());
            }
        }
    }
}

/// While the encoder runs, the unfinished line stays newline-free and at most
/// 70 bytes, and the finished text consists of lines of at most 69 bytes,
/// each ending in a newline.
proof fn lemma_ppm_state_lines(width: int, samples: Seq<u8>, k: int)
    requires
        0 <= k <= samples.len(),
    ensures
        ({
            let st = ppm_state(width, samples, k);
            &&& st.line.len() <= 70
            &&& newline_free(st.line, 0, st.line.len() as int)
            &&& st.out.len() == 0 || st.out.last() == 10
            &&& lines_bounded(st.out, 69)
        }),
    decreases k,
{
    if k > 0 {
        lemma_ppm_state_lines(width, samples, k - 1);
        let prev = ppm_state(width, samples, k - 1);
        let tok = decimal(samples[k - 1] as nat);
        let end_row = k % (3 * width) == 0;
        lemma_decimal_len(samples[k - 1] as nat);
        lemma_decimal_ascii(samples[k - 1] as nat);
        assert(tok.len() <= 3);

        let wrapped = if prev.line.len() + tok.len() >= 70 {
            PpmState { out: prev.out + chomp(prev.line) + seq![10u8], line: Seq::empty() }
        } else {
            prev
        };
        if prev.line.len() + tok.len() >= 70 {
            lemma_out_extend(prev.out, prev.line);
        }
        assert(wrapped.line.len() + tok.len() < 70);

        let appended = PpmState { out: wrapped.out, line: wrapped.line + tok + seq![32u8] };
        assert(appended.line.len() <= 70);
        assert(newline_free(appended.line, 0, appended.line.len() as int)) by {
            assert forall|x: int| 0 <= x < appended.line.len() implies appended.line[x] != 10 by {
                if x < wrapped.line.len() {
                    assert(appended.line[x] == wrapped.line[x]);
                } else if x < wrapped.line.len() + tok.len() {
                    assert(appended.line[x] == tok[x - wrapped.line.len()]);
                } else {
                    assert(appended.line[x] == 32);
                }
            }
        }

        if end_row {
            lemma_out_extend(appended.out, appended.line);
            assert(ppm_state(width, samples, k) == PpmState {
                out: appended.out + chomp(appended.line) + seq![10u8],
                line: Seq::<u8>::empty(),
            });
        } else {
            assert(ppm_state(width, samples, k) == appended);
        }
    }
}

/// Pixmap wrap law: no line of the encoded text exceeds 70 characters — any
/// newline-free stretch of the pixmap is at most 70 bytes long.
pub proof fn lemma_ppm_lines_bounded(width: nat, height: nat, samples: Seq<u8>)
    requires
        width <= usize::MAX,
        height <= usize::MAX,
    ensures
        lines_bounded(ppm_text(width, height, samples), 70),
{
    let header = ppm_header(width, height);
    let wl = decimal(width).len() as int;
    let hl = decimal(height).len() as int;
    assert(usize::MAX < pow10(20)) by {
        reveal_with_fuel(pow10, 21);
    }
    lemma_decimal_len_bound(width, 20);
    lemma_decimal_len_bound(height, 20);
    lemma_decimal_ascii(width);
    lemma_decimal_ascii(height);
    lemma_decimal_ascii(255);
    lemma_decimal_len(255);

    // the three newlines of the header, and what stands between them
    let nl1: int = 2;
    let nl2: int = 4 + wl + hl;
    let nl3: int = header.len() as int - 1;
    assert(header.len() == 6 + wl + hl + decimal(255nat).len());
    assert(header[nl1] == 10);
    assert(header[nl2] == 10);
    assert(header[nl3] == 10);
    assert(header.last() == 10);
    assert(lines_bounded(header, 45)) by {
        assert forall|i: int, j: int|
            0 <= i <= j <= header.len() && newline_free(header, i, j) implies j - i <= 45 by {
            if i <= nl1 && nl1 < j {
                assert(false);
            } else if i <= nl2 && nl2 < j {
                assert(false);
            } else if i <= nl3 && nl3 < j {
                assert(false);
            } else if j <= nl1 {
            } else if j <= nl2 {
                assert(i >= nl1 + 1);
            } else {
                assert(i >= nl2 + 1);
            }
        }
    }

    lemma_ppm_state_lines(width as int, samples, samples.len() as int);
    let st = ppm_state(width as int, samples, samples.len() as int);
    let text = ppm_text(width, height, samples);
    assert(text == header + st.out + st.line);

    assert forall|i: int, j: int|
        0 <= i <= j <= text.len() && newline_free(text, i, j) implies j - i <= 70 by {
        let hlen = header.len() as int;
        let olen = st.out.len() as int;
        if i < hlen && hlen < j {
            assert(text[hlen - 1] == header.last());
            assert(false);
        } else if j <= hlen {
            assert(newline_free(header, i, j)) by {
                assert forall|x: int| i <= x < j implies header[x] != 10 by {
                    assert(text[x] == header[x]);
                }
            }
        } else {
            assert(i >= hlen);
            if i < hlen + olen && hlen + olen < j {
                assert(text[hlen + olen - 1] == st.out.last());
                assert(st.out.last() != 10);
                assert(false);
            } else if j <= hlen + olen {
                assert(newline_free(st.out, i - hlen, j - hlen)) by {
                    assert forall|x: int| i - hlen <= x < j - hlen implies st.out[x] != 10 by {
                        assert(text[x + hlen] == st.out[x]);
                    }
                }
            } else {
                assert(i >= hlen + olen);
                assert(j - i <= st.line.len());
            }
        }
    }
}

/// The characters whose scalar values are the given ASCII codes.
pub open spec fn ascii_chars(s: Seq<u8>) -> Seq<char> {
    Seq::new(s.len(), |i: int| (s[i] as u32) as char)
}

/// Relies on `String::from_utf8`: a sequence of bytes below 128 is valid
/// UTF-8 and becomes the string with exactly those bytes, one character per
/// byte, each character's scalar value being the byte.
#[verifier::external_body]
fn ascii_to_string(bytes: Vec<u8>) -> (r: String)
    requires
        forall|i: int| 0 <= i < bytes@.len() ==> bytes@[i] < 128,
    ensures
        r@ == ascii_chars(bytes@),
{
    match String::from_utf8(bytes) {
        Ok(s) => s,
        Err(_) => String::new(),
    }
}

/// Every byte of the sequence is below 128.
pub open spec fn all_ascii(s: Seq<u8>) -> bool {
    forall|i: int| 0 <= i < s.len() ==> #[trigger] s[i] < 128
}

/// Encodes a pixel grid as an ASCII portable pixmap. `samples` holds the
/// clamped channel values, three per pixel, pixels in row-major order.
pub fn canvas_to_ppm(width: usize, height: usize, samples: &Vec<u8>) -> (r: String)
    requires
        samples@.len() == 3 * (width as int) * (height as int),
    ensures
        r@ == ascii_chars(ppm_text(width as nat, height as nat, samples@)),
{
    let mut bytes: Vec<u8> = Vec::new();
    bytes.push(80);
    bytes.push(51);
    bytes.push(10);
    let mut wd = decimal_digits(width);
    bytes.append(&mut wd);
    bytes.push(32);
    let mut hd = decimal_digits(height);
    bytes.append(&mut hd);
    bytes.push(10);
    let mut md = decimal_digits(255);
    bytes.append(&mut md);
    bytes.push(10);
    proof {
        assert(bytes@ =~= ppm_header(width as nat, height as nat));
        lemma_decimal_ascii(width as nat);
        lemma_decimal_ascii(height as nat);
        lemma_decimal_ascii(255);
        assert(all_ascii(bytes@));
    }
    let ghost header = ppm_header(width as nat, height as nat);

    let mut line: Vec<u8> = Vec::new();
    let mut i: usize = 0;
    while i < samples.len()
        invariant
            i <= samples@.len(),
            samples@.len() == 3 * (width as int) * (height as int),
            bytes@ == header + ppm_state(width as int, samples@, i as int).out,
            line@ == ppm_state(width as int, samples@, i as int).line,
            line@.len() <= 70,
            all_ascii(bytes@),
            all_ascii(line@),
        decreases samples@.len() - i,
    {
        proof {
            assert((width as int) >= 1 && (height as int) >= 1) by (nonlinear_arith)
                requires
                    samples@.len() == 3 * (width as int) * (height as int),
                    samples@.len() > 0,
            ;
            assert(3 * (width as int) <= samples@.len()) by (nonlinear_arith)
                requires
                    samples@.len() == 3 * (width as int) * (height as int),
                    (height as int) >= 1,
                    (width as int) >= 0,
            ;
        }
        let row_samples: usize = 3 * width;
        let ghost st = ppm_state(width as int, samples@, i as int);
        let ghost tok = decimal(samples@[i as int] as nat);
        let mut digits = decimal_digits(samples[i] as usize);
        proof {
            lemma_decimal_ascii(samples@[i as int] as nat);
            lemma_decimal_len(samples@[i as int] as nat);
        }
        if line.len() + digits.len() >= 70 {
            // the line is full: finish it without its trailing space
            line.pop();
            line.push(10);
            proof {
                assert(line@ =~= chomp(st.line) + seq![10u8]);
            }
            bytes.append(&mut line);
        }
        line.append(&mut digits);
        line.push(32);
        let end_row = (i + 1) % row_samples == 0;
        if end_row {
            line.pop();
            line.push(10);
            bytes.append(&mut line);
        }
        proof {
            let stepped = ppm_step(st, tok, (i as int + 1) % (3 * (width as int)) == 0);
            assert(ppm_state(width as int, samples@, i as int + 1) == stepped);
            assert((i as int + 1) % (3 * (width as int)) == ((i + 1) as usize % row_samples) as int);
            assert(bytes@ =~= header + stepped.out);
            assert(line@ =~= stepped.line);
        }
        i = i + 1;
    }
    proof {
        assert(bytes@ + line@ =~= header + ppm_state(width as int, samples@, i as int).out
            + ppm_state(width as int, samples@, i as int).line);
    }
    bytes.append(&mut line);
    proof {
        assert(bytes@ =~= ppm_text(width as nat, height as nat, samples@));
    }
    ascii_to_string(bytes)
}

} // verus!
