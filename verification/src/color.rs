//! The press ink limit on 8-bit CMYK pixels.
//!
//! Each sample spans 0..=255 for 0..=100% ink, so a 240% total-ink limit is a per-pixel budget of
//! 612 sample units.

use vstd::prelude::*;

verus! {

/// The most the four 8-bit CMYK samples of one pixel may sum to: 240% of 255.
pub const MAX_CMYK_SAMPLE_SUM: u16 = 612;

/// Which conversion path an RGB→CMYK converter is using.
#[derive(Debug, Clone, Copy, PartialEq, Eq, Structural)]
pub enum ConvMode {
    /// A profile-aware transform into the output profile.
    Icc,
    /// The naive fallback, used when the profile cannot drive a transform.
    Naive,
}

/// One C, M or Y sample scaled by `budget / cmy`, rounded down.
pub open spec fn scaled_sample(v: u8, budget: int, cmy: int) -> int {
    (v as int * budget) / cmy
}

/// The ink-limited pixel: unchanged when within budget; otherwise K kept and C, M, Y each scaled
/// by the budget K leaves over their sum, rounded down.
pub open spec fn clamp_cmyk_spec(c: u8, m: u8, y: u8, k: u8) -> Seq<u8> {
    let total = c + m + y + k;
    if total <= 612 {
        seq![c, m, y, k]
    } else {
        let budget = 612 - k;
        let cmy = c + m + y;
        seq![
            scaled_sample(c, budget, cmy) as u8,
            scaled_sample(m, budget, cmy) as u8,
            scaled_sample(y, budget, cmy) as u8,
            k,
        ]
    }
}

proof fn lemma_scaled_sample(v: u8, budget: int, cmy: int)
    requires
        0 < budget < cmy,
        v <= cmy,
    ensures
        0 <= scaled_sample(v, budget, cmy) <= v,
        scaled_sample(v, budget, cmy) * cmy <= v * budget,
{
    assert(v as int * budget <= v as int * cmy) by (nonlinear_arith)
        requires
            0 < budget < cmy,
            0 <= v,
    ;
    vstd::arithmetic::div_mod::lemma_div_is_ordered(v as int * budget, v as int * cmy, cmy);
    vstd::arithmetic::div_mod::lemma_div_multiples_vanish(v as int, cmy);
    assert(v as int * cmy == cmy * v as int) by (nonlinear_arith);
    vstd::arithmetic::div_mod::lemma_div_pos_is_pos(v as int * budget, cmy);
    vstd::arithmetic::div_mod::lemma_fundamental_div_mod(v as int * budget, cmy);
    vstd::arithmetic::div_mod::lemma_mod_pos_bound(v as int * budget, cmy);
    assert(scaled_sample(v, budget, cmy) * cmy == cmy * ((v as int * budget) / cmy)) by (nonlinear_arith);
}

fn scale_sample(v: u8, budget: u32, cmy: u32) -> (r: u8)
    requires
        0 < budget < cmy <= 765,
        v <= cmy,
    ensures
        r == scaled_sample(v, budget as int, cmy as int),
{
    proof {
        lemma_scaled_sample(v, budget as int, cmy as int);
    }
    assert(v as u32 * budget <= 255 * 765) by (nonlinear_arith)
        requires
            v <= 255,
            budget < 765,
    ;
    let product: u32 = v as u32 * budget;
    (product / cmy) as u8
}

/// Clamp an 8-bit CMYK pixel to the total-ink limit.
///
/// A pixel within budget is returned unchanged. Over budget, **K is preserved** and C, M, Y are
/// scaled to fit what K leaves, each rounded down so the sum can never round back over the limit.
pub fn clamp_cmyk_u8(c: u8, m: u8, y: u8, k: u8) -> (out: [u8; 4])
    ensures
        out@ == clamp_cmyk_spec(c, m, y, k),
{
    let total: u16 = c as u16 + m as u16 + y as u16 + k as u16;
    if total <= MAX_CMYK_SAMPLE_SUM {
        let out = [c, m, y, k];
        assert(out@ =~= clamp_cmyk_spec(c, m, y, k));
        return out;
    }
    let budget: u32 = 612 - k as u32;
    let cmy: u32 = c as u32 + m as u32 + y as u32;
    let out = [scale_sample(c, budget, cmy), scale_sample(m, budget, cmy), scale_sample(y, budget, cmy), k];
    assert(out@ =~= clamp_cmyk_spec(c, m, y, k));
    out
}

/// **The ink limit holds of every clamped pixel**: its samples sum to at most 612, K is what it
/// was, no sample grows, and a pixel already within the limit is untouched.
pub proof fn lemma_clamp_within_limit(c: u8, m: u8, y: u8, k: u8)
    ensures
        ({
            let out = clamp_cmyk_spec(c, m, y, k);
            &&& out.len() == 4
            &&& out[0] + out[1] + out[2] + out[3] <= 612
            &&& out[3] == k
            &&& out[0] <= c && out[1] <= m && out[2] <= y
            &&& c + m + y + k <= 612 ==> out == seq![c, m, y, k]
        }),
{
    let total = c + m + y + k;
    if total > 612 {
        let budget = 612 - k;
        let cmy = c + m + y;
        lemma_scaled_sample(c, budget, cmy);
        lemma_scaled_sample(m, budget, cmy);
        lemma_scaled_sample(y, budget, cmy);
        let sc = scaled_sample(c, budget, cmy);
        let sm = scaled_sample(m, budget, cmy);
        let sy = scaled_sample(y, budget, cmy);
        assert((sc + sm + sy) * cmy <= cmy * budget) by (nonlinear_arith)
            requires
                sc * cmy <= c * budget,
                sm * cmy <= m * budget,
                sy * cmy <= y * budget,
                cmy == c + m + y,
        ;
        assert(sc + sm + sy <= budget) by (nonlinear_arith)
            requires
                (sc + sm + sy) * cmy <= cmy * budget,
                cmy > 0,
        ;
    }
}

/// Clamp every pixel of packed 8-bit CMYK data (four bytes a pixel) to the total-ink limit.
pub fn clamp_cmyk_pixels(data: &mut Vec<u8>)
    requires
        old(data)@.len() % 4 == 0,
    ensures
        final(data)@.len() == old(data)@.len(),
        forall|p: int| 0 <= p < old(data)@.len() / 4 ==>
            #[trigger] final(data)@.subrange(4 * p, 4 * p + 4) == clamp_cmyk_spec(
                old(data)@[4 * p],
                old(data)@[4 * p + 1],
                old(data)@[4 * p + 2],
                old(data)@[4 * p + 3],
            ),
{
    let ghost unclamped = data@;
    let n = data.len() / 4;
    let mut p: usize = 0;
    while p < n
        invariant
            n == unclamped.len() / 4,
            unclamped.len() % 4 == 0,
            data@.len() == unclamped.len(),
            0 <= p <= n,
            forall|q: int| 0 <= q < p ==>
                #[trigger] data@.subrange(4 * q, 4 * q + 4) == clamp_cmyk_spec(
                    unclamped[4 * q],
                    unclamped[4 * q + 1],
                    unclamped[4 * q + 2],
                    unclamped[4 * q + 3],
                ),
            forall|i: int| 4 * p <= i < data@.len() ==> data@[i] == unclamped[i],
        decreases n - p,
    {
        let len = data.len();
        assert(4 * p + 4 <= data@.len()) by (nonlinear_arith)
            requires
                p < n,
                n == unclamped.len() / 4,
                data@.len() == unclamped.len(),
        ;
        let b = 4 * p;
        let out = clamp_cmyk_u8(data[b], data[b + 1], data[b + 2], data[b + 3]);
        let ghost before = data@;
        data.set(b, out[0]);
        data.set(b + 1, out[1]);
        data.set(b + 2, out[2]);
        data.set(b + 3, out[3]);
        proof {
            assert(data@.subrange(4 * p, 4 * p + 4) =~= out@);
            assert forall|q: int| 0 <= q < p + 1 implies
                #[trigger] data@.subrange(4 * q, 4 * q + 4) == clamp_cmyk_spec(
                    unclamped[4 * q],
                    unclamped[4 * q + 1],
                    unclamped[4 * q + 2],
                    unclamped[4 * q + 3],
                ) by {
                if q < p {
                    assert(data@.subrange(4 * q, 4 * q + 4) =~= before.subrange(4 * q, 4 * q + 4));
                }
            }
        }
        p = p + 1;
    }
}


#[verifier::external_type_specification]
#[verifier::external_body]
pub struct ExGlobalContext(lcms2::GlobalContext);

#[verifier::external_type_specification]
#[verifier::external_body]
pub struct ExAllowCache(lcms2::AllowCache);

#[verifier::external_type_specification]
#[verifier::external_body]
#[verifier::reject_recursive_types(Context)]
pub struct ExProfile<Context>(lcms2::Profile<Context>);

#[verifier::external_type_specification]
#[verifier::external_body]
#[verifier::reject_recursive_types(InputPixelFormat)]
#[verifier::reject_recursive_types(OutputPixelFormat)]
#[verifier::reject_recursive_types(Context)]
#[verifier::reject_recursive_types(Flags)]
pub struct ExTransform<InputPixelFormat, OutputPixelFormat, Context, Flags>(
    lcms2::Transform<InputPixelFormat, OutputPixelFormat, Context, Flags>,
);

/// An output profile read from ICC bytes (lcms2 `Profile::new_icc`); `None` when lcms2 cannot
/// read them as a profile. lcms2 refuses empty data before parsing anything (`MissingData`); which
/// non-empty byte strings it reads as a profile is lcms2's and is left unsaid.
#[verifier::external_body]
fn icc_profile(icc_bytes: &[u8]) -> (p: Option<lcms2::Profile>)
    ensures
        icc_bytes@.len() == 0 ==> p is None,
{
    lcms2::Profile::new_icc(icc_bytes).ok()
}

/// The built-in sRGB profile (lcms2 `Profile::new_srgb`).
#[verifier::external_body]
fn srgb_profile() -> (p: lcms2::Profile) {
    lcms2::Profile::new_srgb()
}

/// A perceptual transform from 8-bit RGB in `input` to 8-bit CMYK in `output` (lcms2
/// `Transform::new`); `None` when lcms2 cannot link the two.
#[verifier::external_body]
fn perceptual_rgb_to_cmyk(input: &lcms2::Profile, output: &lcms2::Profile) -> (t: Option<lcms2::Transform<u8, u8>>) {
    lcms2::Transform::new(input, lcms2::PixelFormat::RGB_8, output, lcms2::PixelFormat::CMYK_8, lcms2::Intent::Perceptual).ok()
}

/// Run `t` over packed RGB bytes into packed CMYK bytes (lcms2 `Transform::transform_pixels`).
/// What each pixel becomes is the output profile's business; the buffer keeps its length.
#[verifier::external_body]
fn transform_pixels(t: &lcms2::Transform<u8, u8>, rgb: &[u8], cmyk: &mut Vec<u8>)
    requires
        rgb.len() % 3 == 0,
        old(cmyk)@.len() == rgb.len() / 3 * 4,
    ensures
        final(cmyk)@.len() == old(cmyk)@.len(),
{
    t.transform_pixels(rgb, cmyk.as_mut_slice());
}


/// Whether `out` is `raw` with every four-byte pixel clamped to the ink limit.
pub open spec fn ink_limited(raw: Seq<u8>, out: Seq<u8>) -> bool {
    &&& out.len() == raw.len()
    &&& forall|p: int| 0 <= p < raw.len() / 4 ==>
        #[trigger] out.subrange(4 * p, 4 * p + 4) == clamp_cmyk_spec(raw[4 * p], raw[4 * p + 1], raw[4 * p + 2], raw[4 * p + 3])
}

/// An RGB→CMYK converter into a press output profile: a profile-aware transform when lcms2 can
/// build one from the profile, else nothing, and the naive fallback is used instead.
pub struct RgbToCmyk {
    transform: Option<lcms2::Transform<u8, u8>>,
}

impl RgbToCmyk {
    /// Whether this converter drives a profile-aware transform.
    pub closed spec fn uses_profile(&self) -> bool {
        self.transform is Some
    }

    /// A converter into the output profile `icc_bytes` (sRGB in, perceptual intent). A profile
    /// lcms2 cannot read or link leaves the converter on the naive fallback rather than failing:
    /// the export still happens and says which path it took. No bytes at all are no profile.
    pub fn from_output_profile(icc_bytes: &[u8]) -> (r: RgbToCmyk)
        ensures
            icc_bytes@.len() == 0 ==> !r.uses_profile(),
    {
        let transform = match icc_profile(icc_bytes) {
            Some(dst) => {
                let src = srgb_profile();
                perceptual_rgb_to_cmyk(&src, &dst)
            },
            None => None,
        };
        RgbToCmyk { transform }
    }

    /// Which path this converter takes.
    pub fn mode(&self) -> (m: ConvMode)
        ensures
            m == (if self.uses_profile() { ConvMode::Icc } else { ConvMode::Naive }),
    {
        match &self.transform {
            Some(_) => ConvMode::Icc,
            None => ConvMode::Naive,
        }
    }

    /// Convert packed 8-bit RGB to packed 8-bit CMYK through the profile, every pixel clamped to
    /// the ink limit; `None` when this converter has no profile transform (the caller then takes
    /// the naive path). Whatever the profile makes of a pixel, what comes out is within the limit.
    pub fn convert_with_profile(&self, rgb: &[u8]) -> (r: Option<Vec<u8>>)
        requires
            rgb.len() % 3 == 0,
            rgb.len() / 3 * 4 <= usize::MAX,
        ensures
            r is Some <==> self.uses_profile(),
            r matches Some(out) ==> {
                &&& out@.len() == rgb.len() / 3 * 4
                &&& exists|raw: Seq<u8>| #[trigger] ink_limited(raw, out@)
                &&& forall|p: int| 0 <= p < out@.len() / 4 ==>
                    #[trigger] out@[4 * p] + out@[4 * p + 1] + out@[4 * p + 2] + out@[4 * p + 3] <= 612
            },
    {
        match &self.transform {
            None => None,
            Some(t) => {
                let px = rgb.len() / 3;
                let total = px * 4;
                let mut out: Vec<u8> = Vec::new();
                let mut i: usize = 0;
                while i < total
                    invariant
                        px == rgb.len() / 3,
                        total == px * 4,
                        0 <= i <= total,
                        out@.len() == i,
                    decreases total - i,
                {
                    out.push(0u8);
                    i = i + 1;
                }
                transform_pixels(t, rgb, &mut out);
                let ghost raw = out@;
                assert(raw.len() % 4 == 0) by (nonlinear_arith)
                    requires raw.len() == px * 4;
                clamp_cmyk_pixels(&mut out);
                proof {
                    assert(ink_limited(raw, out@));
                    assert forall|p: int| 0 <= p < out@.len() / 4 implies
                        #[trigger] out@[4 * p] + out@[4 * p + 1] + out@[4 * p + 2] + out@[4 * p + 3] <= 612 by {
                        lemma_clamp_within_limit(raw[4 * p], raw[4 * p + 1], raw[4 * p + 2], raw[4 * p + 3]);
                        assert(out@.subrange(4 * p, 4 * p + 4) == clamp_cmyk_spec(raw[4 * p], raw[4 * p + 1], raw[4 * p + 2], raw[4 * p + 3]));
                        assert(out@[4 * p] == out@.subrange(4 * p, 4 * p + 4)[0]);
                        assert(out@[4 * p + 1] == out@.subrange(4 * p, 4 * p + 4)[1]);
                        assert(out@[4 * p + 2] == out@.subrange(4 * p, 4 * p + 4)[2]);
                        assert(out@[4 * p + 3] == out@.subrange(4 * p, 4 * p + 4)[3]);
                    }
                }
                Some(out)
            },
        }
    }
}

} // verus!
