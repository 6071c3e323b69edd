//! What a frame looks like once it is turned into red, green and blue, and what
//! of a text or of data can be read back.
use crate::algebra::{lemma_nothing, lemma_spread_out};
use crate::calibrate_mono::{
    as_byte, base64_letter, base64_of, byte_at, colour, full_range, joined, json_char, json_chars,
    occurs_at, replaced, rgb_of, six_bits, without_trailing, BLUE, GREEN_BLUE, GREEN_RED, RED,
};
use crate::double::F64;
use crate::lens_laws::{lemma_dyadic, lemma_near_times, lemma_tick, near, tick};
use crate::radius_laws::{lemma_scaled, lemma_size_times, lemma_unscaled};
use crate::real_laws::{
    lemma_minus, lemma_over, lemma_plus, lemma_val, lemma_val_ordered, size, val,
};
use crate::rounding::Format;
use crate::value_laws::lemma_whole;
use crate::whole::{law_whole_part_is_close, whole_part, Toward};
use vstd::arithmetic::div_mod::lemma_fundamental_div_mod_converse;
use vstd::arithmetic::power2::{
    lemma2_to64, lemma2_to64_rest, lemma_pow2_adds, lemma_pow2_pos, pow2,
};
use vstd::prelude::*;

verus! {

/// A sample stretched to the full range.
proof fn lemma_full_range(x: u8, offset: nat, span: nat)
    requires
        offset == 16 && span == 219 || offset == 128 && span == 224,
    ensures
        near(
            full_range(x, offset, span),
            (x as real - offset as real) * (255 as real / span as real),
            600 as real * tick(),
        ),
        size((x as real - offset as real) * (255 as real / span as real)) <= 300 as real,
        offset == 128 ==> size((x as real - offset as real) * (255 as real / span as real))
            <= 150 as real,
{
    lemma_whole(x as nat);
    lemma_whole(offset);
    lemma_whole(255);
    lemma_whole(span);
    let (a, b) = (F64::of_whole(x as nat), F64::of_whole(offset));
    let (c, d) = (F64::of_whole(255), F64::of_whole(span));
    let (p, k) = (x as real - offset as real, 255 as real / span as real);
    lemma_minus(a, b);
    lemma_tick(val(a.minus(b)), p);
    lemma_over(c, d);
    if span == 219 {
        assert(k == 255 as real / 219 as real);
    } else {
        assert(k == 255 as real / 224 as real);
    }
    lemma_tick(val(c.over(d)), k);
    assert(k <= 6 as real / 5 as real && k >= 1 as real);
    lemma_near_times(
        a.minus(b),
        p,
        tick(),
        c.over(d),
        k,
        tick(),
        256 as real,
        2 as real,
    );
    lemma_size_times(p, k);
    lemma_scaled(k, if offset == 128 {
        8 as real / 7 as real
    } else {
        7 as real / 6 as real
    }, size(p));
}

/// The weights of the two colour differences.
proof fn lemma_weights()
    ensures
        near(F64 { bits: RED }, 15748 as real / 10000 as real, tick()),
        near(F64 { bits: GREEN_BLUE }, 1873 as real / 10000 as real, tick()),
        near(F64 { bits: GREEN_RED }, 4681 as real / 10000 as real, tick()),
        near(F64 { bits: BLUE }, 18556 as real / 10000 as real, tick()),
{
    lemma2_to64();
    lemma2_to64_rest();
    lemma_pow2_adds(52, 2);
    lemma_pow2_adds(52, 3);
    let (r, gb, gr, b) = (
        F64 { bits: RED },
        F64 { bits: GREEN_BLUE },
        F64 { bits: GREEN_RED },
        F64 { bits: BLUE },
    );
    lemma_dyadic(r, 1022, 0x19_3261_7C1B_DA51);
    lemma_dyadic(gb, 1019, 0x17_F972_4745_38EF);
    lemma_dyadic(gr, 1020, 0x1D_F559_B3D0_7C85);
    lemma_dyadic(b, 1022, 0x1D_B089_A027_5254);
    assert(val(r) * 0x10_0000_0000_0000 as real == 0x19_3261_7C1B_DA51 as real);
    assert(val(b) * 0x10_0000_0000_0000 as real == 0x1D_B089_A027_5254 as real);
    assert(val(gr) * 0x40_0000_0000_0000 as real == 0x1D_F559_B3D0_7C85 as real);
    assert(val(gb) * 0x80_0000_0000_0000 as real == 0x17_F972_4745_38EF as real);
}

/// A colour difference times its weight.
proof fn lemma_weighted(k: F64, w: real, c: F64, x: real)
    requires
        near(k, w, tick()),
        size(w) <= 2 as real,
        near(c, x, 600 as real * tick()),
        size(x) <= 150 as real,
    ensures
        near(k.times(c), w * x, 0x1000 as real * tick()),
        size(w * x) <= 300 as real,
{
    lemma_near_times(
        k,
        w,
        tick(),
        c,
        x,
        600 as real * tick(),
        2 as real,
        151 as real,
    );
    lemma_size_times(w, x);
    lemma_scaled(size(w), 2 as real, size(x));
}

/// Red, green and blue are the luminance with the colour differences added by
/// their weights, all stretched from the video range: blue-difference to blue,
/// red-difference to red, and both taken off green.
pub proof fn law_colours_mix(y: u8, u: u8, v: u8)
    ensures
        ({
            let l = (y as real - 16 as real) * (255 as real / 219 as real);
            let cb = (u as real - 128 as real) * (255 as real / 224 as real);
            let cr = (v as real - 128 as real) * (255 as real / 224 as real);
            let off = 0x4000 as real * tick();
            &&& near(colour(y, u, v, 0), l + (15748 as real / 10000 as real) * cr, off)
            &&& near(
                colour(y, u, v, 1),
                l - (1873 as real / 10000 as real) * cb - (4681 as real / 10000 as real)
                    * cr,
                off,
            )
            &&& near(colour(y, u, v, 2), l + (18556 as real / 10000 as real) * cb, off)
        }),
{
    lemma_weights();
    lemma_full_range(y, 16, 219);
    lemma_full_range(u, 128, 224);
    lemma_full_range(v, 128, 224);
    let (a, b, c) = (full_range(y, 16, 219), full_range(u, 128, 224), full_range(v, 128, 224));
    let l = (y as real - 16 as real) * (255 as real / 219 as real);
    let cb = (u as real - 128 as real) * (255 as real / 224 as real);
    let cr = (v as real - 128 as real) * (255 as real / 224 as real);
    let (r, gb, gr, e) = (
        F64 { bits: RED },
        F64 { bits: GREEN_BLUE },
        F64 { bits: GREEN_RED },
        F64 { bits: BLUE },
    );
    lemma_weighted(r, 15748 as real / 10000 as real, c, cr);
    lemma_weighted(gb, 1873 as real / 10000 as real, b, cb);
    lemma_weighted(gr, 4681 as real / 10000 as real, c, cr);
    lemma_weighted(e, 18556 as real / 10000 as real, b, cb);
    lemma_plus(a, r.times(c));
    lemma_tick(val(a.plus(r.times(c))), val(a) + val(r.times(c)));
    lemma_plus(a, e.times(b));
    lemma_tick(val(a.plus(e.times(b))), val(a) + val(e.times(b)));
    lemma_minus(a, gb.times(b));
    let g = a.minus(gb.times(b));
    lemma_tick(val(g), val(a) - val(gb.times(b)));
    lemma_minus(g, gr.times(c));
    lemma_tick(val(g.minus(gr.times(c))), val(g) - val(gr.times(c)));
}

/// A colour becomes a byte by leaving out what is behind the point; below zero
/// it is zero and above 255 it is 255.
pub proof fn law_byte_is_cut(x: F64)
    requires
        x.finite(),
    ensures
        val(x) <= 0 as real ==> as_byte(x) == 0,
        val(x) >= 255 as real ==> as_byte(x) == 255,
        0 as real <= val(x) <= 255 as real ==> as_byte(x) as real <= val(x) && val(x) < as_byte(x)
            as real + 1 as real,
{
    lemma_whole(0);
    lemma_whole(255);
    let (lo, hi) = (F64::of_whole(0), F64::of_whole(255));
    lemma_val_ordered(x, lo);
    lemma_val_ordered(hi, x);
    let c = x.clamped(lo, hi);
    lemma_val(c);
    lemma_before_point(c);
}

/// The whole number before the point.
proof fn lemma_before_point(x: F64)
    requires
        x.finite(),
        0 as real <= val(x) <= 255 as real,
    ensures
        ({
            let k = x.as_whole(Toward::Down);
            k as real <= val(x) && val(x) < k as real + 1 as real && k <= 255
        }),
{
    let f = Format::Double;
    let n = x.parts().size(f);
    let u = pow2(1074) as int;
    let w = u as real;
    lemma_pow2_pos(1074);
    lemma_val(x);
    law_whole_part_is_close(f, n);
    let k = whole_part(f, n, Toward::Down);
    let m = k * u;
    assert(m as real == k as real * w) by (nonlinear_arith)
        requires
            m == k * u,
            w == u as real,
    ;
    lemma_nothing(w);
    if x.parts().neg {
        assert(val(x) == 0 as real);
        assert(x.as_whole(Toward::Down) == 0);
    } else {
        lemma_unscaled(k as real, val(x), w);
        lemma_spread_out(k as real, 1 as real, w);
        if val(x) >= k as real + 1 as real {
            lemma_scaled(k as real + 1 as real, val(x), w);
        }
        if k < 0 {
            lemma_scaled(k as real, -1 as real, w);
        }
    }
}

/// The picture goes by rows, each pixel red, green and blue; a pixel has its own
/// luminance and shares its colour differences with the other pixels of its
/// block of two by two.
pub proof fn law_picture_goes_by_rows(
    y: Seq<u8>,
    u: Seq<u8>,
    v: Seq<u8>,
    width: u32,
    height: u32,
    row: int,
    column: int,
    channel: int,
)
    requires
        0 <= row < height,
        0 <= column < width,
        0 <= channel < 3,
    ensures
        ({
            let p = row * width + column;
            let c = (row / 2) * ((width + 1) / 2) + column / 2;
            &&& rgb_of(y, u, v, width, height).len() == 3 * (width * height)
            &&& 0 <= 3 * p + channel < 3 * (width * height)
            &&& rgb_of(y, u, v, width, height)[3 * p + channel] == as_byte(
                colour(y[p], u[c], v[c], channel),
            )
        }),
{
    let w = width as int;
    let p = row * w + column;
    let i = 3 * p + channel;
    lemma_fundamental_div_mod_converse(p, w, row, column);
    lemma_fundamental_div_mod_converse(i, 3, p, channel);
    let h = height as int;
    assert(0 <= p < w * h) by (nonlinear_arith)
        requires
            p == row * w + column,
            0 <= row,
            row + 1 <= h,
            0 <= column < w,
    ;
    assert(w * h * 3 == 3 * (w * h));
}

/// Each letter stands for one value of six bits.
pub proof fn law_letters_differ(a: int, b: int)
    requires
        0 <= a < 64,
        0 <= b < 64,
        a != b,
    ensures
        base64_letter(a) != base64_letter(b),
        base64_letter(a) != '=',
{
    assert(base64_letter(a) as int == if a < 26 {
        65 + a
    } else if a < 52 {
        97 + (a - 26)
    } else if a < 62 {
        48 + (a - 52)
    } else if a == 62 {
        43int
    } else {
        47
    });
    assert(base64_letter(b) as int == if b < 26 {
        65 + b
    } else if b < 52 {
        97 + (b - 26)
    } else if b < 62 {
        48 + (b - 52)
    } else if b == 62 {
        43int
    } else {
        47
    });
}

/// What was written down can be read back: four letters hold three bytes, six
/// bits each, the first bits first; and what is left of the last four letters is
/// filled up.
pub proof fn law_data_can_be_read_back(data: Seq<u8>, k: int)
    requires
        0 <= k,
        3 * k < data.len(),
    ensures
        ({
            let (a, b, c, d) = (
                six_bits(data, 4 * k),
                six_bits(data, 4 * k + 1),
                six_bits(data, 4 * k + 2),
                six_bits(data, 4 * k + 3),
            );
            let s = base64_of(data);
            &&& s.len() == 4 * ((data.len() + 2) / 3)
            &&& 0 <= a < 64 && 0 <= b < 64 && 0 <= c < 64 && 0 <= d < 64
            &&& data[3 * k] == 4 * a + b / 16
            &&& s[4 * k] == base64_letter(a) && s[4 * k + 1] == base64_letter(b)
            &&& 3 * k + 1 < data.len() ==> data[3 * k + 1] == (b % 16) * 16 + c / 4 && s[4 * k + 2]
                == base64_letter(c)
            &&& 3 * k + 2 < data.len() ==> data[3 * k + 2] == (c % 4) * 64 + d && s[4 * k + 3]
                == base64_letter(d)
            &&& 3 * k + 1 == data.len() ==> s[4 * k + 2] == '=' && s[4 * k + 3] == '='
            &&& 3 * k + 2 == data.len() ==> s[4 * k + 3] == '='
        }),
{
    lemma_six_at(data, k);
    let (x, y, z) = (
        byte_at(data, 3 * k),
        byte_at(data, 3 * k + 1),
        byte_at(data, 3 * k + 2),
    );
    lemma_bytes_of_six(x, y, z);
}

/// The six bits that four letters stand for.
proof fn lemma_six_at(data: Seq<u8>, k: int)
    requires
        0 <= k,
    ensures
        ({
            let (x, y, z) = (
                byte_at(data, 3 * k),
                byte_at(data, 3 * k + 1),
                byte_at(data, 3 * k + 2),
            );
            &&& 0 <= x < 256 && 0 <= y < 256 && 0 <= z < 256
            &&& six_bits(data, 4 * k) == x / 4
            &&& six_bits(data, 4 * k + 1) == (x % 4) * 16 + y / 16
            &&& six_bits(data, 4 * k + 2) == (y % 16) * 4 + z / 64
            &&& six_bits(data, 4 * k + 3) == z % 64
        }),
{
    assert(6 * (4 * k) / 8 == 3 * k && 6 * (4 * k) % 8 == 0);
    assert(6 * (4 * k + 1) / 8 == 3 * k && 6 * (4 * k + 1) % 8 == 6);
    assert(6 * (4 * k + 2) / 8 == 3 * k + 1 && 6 * (4 * k + 2) % 8 == 4);
    assert(6 * (4 * k + 3) / 8 == 3 * k + 2 && 6 * (4 * k + 3) % 8 == 2);
    lemma_cut_six(
        byte_at(data, 3 * k),
        byte_at(data, 3 * k + 1),
        byte_at(data, 3 * k + 2),
        byte_at(data, 3 * k + 3),
    );
}

/// Six bits cut out of two bytes.
proof fn lemma_cut_six(x: int, y: int, z: int, n: int)
    requires
        0 <= x < 256 && 0 <= y < 256 && 0 <= z < 256 && 0 <= n < 256,
    ensures
        (x * 256 + y) / 1024 % 64 == x / 4,
        (x * 256 + y) / 16 % 64 == (x % 4) * 16 + y / 16,
        (y * 256 + z) / 64 % 64 == (y % 16) * 4 + z / 64,
        (z * 256 + n) / 256 % 64 == z % 64,
{
}

/// Three bytes out of four times six bits.
proof fn lemma_bytes_of_six(x: int, y: int, z: int)
    requires
        0 <= x < 256 && 0 <= y < 256 && 0 <= z < 256,
    ensures
        ({
            let (a, b, c, d) = (
                x / 4,
                (x % 4) * 16 + y / 16,
                (y % 16) * 4 + z / 64,
                z % 64,
            );
            &&& 0 <= a < 64 && 0 <= b < 64 && 0 <= c < 64 && 0 <= d < 64
            &&& x == 4 * a + b / 16
            &&& y == (b % 16) * 16 + c / 4
            &&& z == (c % 4) * 64 + d
        }),
{
}

/// A text in which a pattern does not occur stays as it is.
pub proof fn law_nothing_to_replace(s: Seq<char>, pattern: Seq<char>, with: Seq<char>)
    requires
        forall|i: int| 0 <= i <= s.len() ==> !#[trigger] occurs_at(s, pattern, i),
    ensures
        replaced(s, pattern, with) == s,
    decreases s.len(),
{
    if s.len() > 0 && pattern.len() > 0 {
        let rest = s.skip(1);
        assert forall|i: int| 0 <= i <= rest.len() implies !#[trigger] occurs_at(
            rest,
            pattern,
            i,
        ) by {
            assert(!occurs_at(s, pattern, i + 1));
            if i + pattern.len() <= rest.len() {
                assert(rest.subrange(i, i + pattern.len()) =~= s.subrange(
                    i + 1,
                    i + 1 + pattern.len(),
                ));
            }
        }
        law_nothing_to_replace(rest, pattern, with);
        assert(!occurs_at(s, pattern, 0));
        assert(seq![s[0]] + rest =~= s);
    }
}

/// Where a text begins with a pattern, the replacement takes its place and the
/// rest is seen to on its own.
pub proof fn law_pattern_is_replaced(s: Seq<char>, pattern: Seq<char>, with: Seq<char>)
    requires
        pattern.len() > 0,
    ensures
        replaced(pattern + s, pattern, with) == with + replaced(s, pattern, with),
{
    let all = pattern + s;
    assert(all.subrange(0, pattern.len() as int) =~= pattern);
    assert(all.skip(pattern.len() as int) =~= s);
    assert(occurs_at(all, pattern, 0));
}

/// What is cut off the end of a text is the given letter and nothing else, and
/// all of it.
pub proof fn law_trailing_is_cut(s: Seq<char>, c: char)
    ensures
        ({
            let r = without_trailing(s, c);
            &&& r.len() <= s.len() && s.take(r.len() as int) == r
            &&& forall|i: int| r.len() <= i < s.len() ==> #[trigger] s[i] == c
            &&& r.len() > 0 ==> r.last() != c
        }),
    decreases s.len(),
{
    if s.len() > 0 && s.last() == c {
        law_trailing_is_cut(s.drop_last(), c);
        let r = without_trailing(s, c);
        assert(s.take(r.len() as int) =~= s.drop_last().take(r.len() as int));
        assert forall|i: int| r.len() <= i < s.len() implies #[trigger] s[i] == c by {
            if i < s.len() - 1 {
                assert(s.drop_last()[i] == s[i]);
            }
        }
    } else {
        assert(s.take(s.len() as int) =~= s);
    }
}

/// Joined words stand one behind the other with the separator between them.
pub proof fn law_joined_words(words: Seq<Seq<char>>, word: Seq<char>, between: Seq<char>)
    ensures
        joined(Seq::empty(), between) == Seq::<char>::empty(),
        joined(seq![word], between) == word,
        words.len() > 0 ==> joined(words.push(word), between) == joined(words, between) + between
            + word,
{
    assert(words.push(word).drop_last() =~= words);
}

/// What is written into a quoted text: letters stay as they are, quotes and
/// backslashes stand behind a backslash, and nothing below a space is left.
pub proof fn law_quoted_text_is_plain(text: Seq<char>, c: char)
    ensures
        json_chars(Seq::empty()) == Seq::<char>::empty(),
        json_chars(text.push(c)) == json_chars(text) + json_char(c),
        c as int >= 32 && c != '"' && c != '\\' ==> json_char(c) == seq![c],
        c == '"' || c == '\\' ==> json_char(c) == seq!['\\', c],
        (c as int) < 32 ==> json_char(c).len() >= 2 && json_char(c)[0] == '\\',
        forall|i: int| 0 <= i < json_char(c).len() ==> #[trigger] json_char(c)[i] as int >= 32,
{
    assert(text.push(c).drop_last() =~= text);
}

} // verus!
