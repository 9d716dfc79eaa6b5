//! Displayed state: mapping a fresh reading of the controlled quantity to
//! what the overlay shows.
//!
//! Nothing here is cached: the coordinator re-queries the level (and, for
//! the volume daemon, the mute flag) after every command and derives the
//! icon from that reading alone, so the overlay can never drift from the
//! real device or mixer state.

use vstd::prelude::*;

verus! {

/// The icon for a brightness reading: low up to half scale, high above it;
/// out-of-scale readings fall back to the low icon.
pub open spec fn brightness_icon(level: int) -> Seq<char> {
    if 0 <= level <= 50 {
        "display-brightness-low-symbolic"@
    } else if 51 <= level <= 100 {
        "display-brightness-high-symbolic"@
    } else {
        "display-brightness-low-symbolic"@
    }
}

/// The icon for a volume reading. A set mute flag wins over any level;
/// otherwise the level picks low, medium or high, and out-of-scale
/// readings fall back to the muted icon.
pub open spec fn volume_icon(level: int, muted: bool) -> Seq<char> {
    if muted {
        "audio-volume-muted"@
    } else if 0 <= level <= 30 {
        "audio-volume-low"@
    } else if 31 <= level <= 50 {
        "audio-volume-medium"@
    } else if 51 <= level <= 100 {
        "audio-volume-high"@
    } else {
        "audio-volume-muted"@
    }
}

/// True for the icon names the brightness daemon can display.
pub open spec fn is_brightness_icon(name: Seq<char>) -> bool {
    ||| name == "display-brightness-low-symbolic"@
    ||| name == "display-brightness-high-symbolic"@
}

/// True for the icon names the volume daemon can display.
pub open spec fn is_volume_icon(name: Seq<char>) -> bool {
    ||| name == "audio-volume-muted"@
    ||| name == "audio-volume-low"@
    ||| name == "audio-volume-medium"@
    ||| name == "audio-volume-high"@
}

/// Icon name for a brightness reading.
pub fn icon_name_from_brightness(brightness: i64) -> (r: &'static str)
    ensures
        r@ == brightness_icon(brightness as int),
{
    if 0 <= brightness && brightness <= 50 {
        "display-brightness-low-symbolic"
    } else if 51 <= brightness && brightness <= 100 {
        "display-brightness-high-symbolic"
    } else {
        "display-brightness-low-symbolic"
    }
}

/// Icon name for a volume reading and mute flag.
pub fn icon_name_from_volume(volume: i64, muted: bool) -> (r: &'static str)
    ensures
        r@ == volume_icon(volume as int, muted),
{
    if muted {
        "audio-volume-muted"
    } else if 0 <= volume && volume <= 30 {
        "audio-volume-low"
    } else if 31 <= volume && volume <= 50 {
        "audio-volume-medium"
    } else if 51 <= volume && volume <= 100 {
        "audio-volume-high"
    } else {
        "audio-volume-muted"
    }
}

/// Decimal digits of `n`, most significant first (for `n >= 0`).
pub open spec fn dec_digits(n: int) -> Seq<u8>
    decreases n,
{
    if n < 10 {
        seq![(0x30 + n) as u8]
    } else {
        dec_digits(n / 10).push((0x30 + n % 10) as u8)
    }
}

/// Decimal notation of `v`: a minus sign for negative values, then the
/// digits of its magnitude.
pub open spec fn signed_dec_digits(v: int) -> Seq<u8> {
    if v < 0 {
        seq![0x2du8] + dec_digits(-v)
    } else {
        dec_digits(v)
    }
}

/// The overlay's text for a reading: the level in decimal, then `%`.
pub open spec fn percent_text(v: int) -> Seq<u8> {
    signed_dec_digits(v).push(0x25)
}

/// Builds the text shown beside the bar, as bytes: the fresh level in
/// decimal followed by a percent sign.
pub fn percent_label(level: i64) -> (r: Vec<u8>)
    ensures
        r@ == percent_text(level as int),
{
    let neg = level < 0;
    let mag: u64 = if level == i64::MIN {
        0x8000_0000_0000_0000u64
    } else if level < 0 {
        (-level) as u64
    } else {
        level as u64
    };
    let ghost gm = mag as int;

    // least significant digit first, reversed while copying out
    let mut lsd: Vec<u8> = Vec::new();
    let mut m: u64 = mag;
    while m >= 10
        invariant
            dec_digits(gm) == dec_digits(m as int) + lsd@.reverse(),
        decreases m,
    {
        let d = (0x30 + m % 10) as u8;
        proof {
            assert((lsd@.push(d)).reverse() =~= seq![d] + lsd@.reverse());
            assert(dec_digits(m as int) == dec_digits(m as int / 10).push(d));
            assert(dec_digits(m as int / 10) + (lsd@.push(d)).reverse() =~= dec_digits(
                m as int,
            ) + lsd@.reverse());
        }
        lsd.push(d);
        m = m / 10;
    }
    let d = (0x30 + m) as u8;
    proof {
        assert((lsd@.push(d)).reverse() =~= seq![d] + lsd@.reverse());
        assert(dec_digits(m as int) =~= seq![d]);
        assert(dec_digits(m as int) + lsd@.reverse() =~= (lsd@.push(d)).reverse());
    }
    lsd.push(d);

    let mut r: Vec<u8> = Vec::new();
    if neg {
        r.push(0x2d);
    }
    let ghost sign: Seq<u8> = if neg {
        seq![0x2du8]
    } else {
        Seq::empty()
    };
    proof {
        assert(r@ =~= sign);
        assert(sign + lsd@.reverse().take(0) =~= sign);
    }
    let k = lsd.len();
    let mut i: usize = 0;
    while i < k
        invariant
            i <= k == lsd@.len(),
            r@ == sign + lsd@.reverse().take(i as int),
        decreases k - i,
    {
        let b = lsd[k - 1 - i];
        proof {
            assert(lsd@.reverse()[i as int] == b);
            assert(sign + lsd@.reverse().take(i + 1) =~= (sign + lsd@.reverse().take(
                i as int,
            )).push(b));
        }
        r.push(b);
        i = i + 1;
    }
    proof {
        assert(lsd@.reverse().take(k as int) =~= lsd@.reverse());
        assert(signed_dec_digits(level as int) == sign + dec_digits(gm));
        assert(r@ =~= signed_dec_digits(level as int));
    }
    r.push(0x25);
    r
}

/// The label agrees with the parsers' notion of a decimal number: the
/// digits written for a non-negative reading read back as that reading.
pub proof fn lemma_label_value_round_trip(n: int)
    requires
        n >= 0,
    ensures
        crate::parse::all_digits(dec_digits(n)),
        crate::parse::dec_val(dec_digits(n)) == n,
    decreases n,
{
    if n < 10 {
        let s = seq![(0x30 + n) as u8];
        assert(s.drop_last() =~= Seq::<u8>::empty());
        assert(crate::parse::dec_val(s.drop_last()) == 0);
        assert(s.last() == 0x30 + n);
        assert(crate::parse::dec_val(s) == n);
    } else {
        lemma_label_value_round_trip(n / 10);
        let s = dec_digits(n / 10).push((0x30 + n % 10) as u8);
        assert(s.drop_last() =~= dec_digits(n / 10));
        assert(crate::parse::dec_val(s) == (n / 10) * 10 + n % 10);
    }
}

/// Every reading maps to a defined icon name — the threshold tables are
/// total, so boundary readings such as 0 or 100 cannot fall outside them.
pub proof fn lemma_icons_total(level: int, muted: bool)
    ensures
        is_brightness_icon(brightness_icon(level)),
        is_volume_icon(volume_icon(level, muted)),
{
}

/// While muted, the volume overlay shows the muted icon whatever the
/// current level is.
pub proof fn lemma_muted_icon_overrides_level(level: int)
    ensures
        volume_icon(level, true) == "audio-volume-muted"@,
{
}

/// The displayed state is a pure function of the fresh reading: two
/// queries with no intervening command read the same level and mute flag
/// and therefore display identically.
pub proof fn lemma_display_idempotent(level1: int, muted1: bool, level2: int, muted2: bool)
    requires
        level1 == level2,
        muted1 == muted2,
    ensures
        brightness_icon(level1) == brightness_icon(level2),
        volume_icon(level1, muted1) == volume_icon(level2, muted2),
{
}

} // verus!
