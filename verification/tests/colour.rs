use tohdr::colour::{icc_description, primaries_from_icc, Primaries};

#[test]
fn nclx_codes_are_the_ones_apple_writes() {
    assert_eq!(Primaries::Bt709.nclx(), 1);
    assert_eq!(Primaries::DisplayP3.nclx(), 12);
    assert_eq!(Primaries::Bt2020.nclx(), 9);
}

#[test]
fn parses_the_spellings_people_type() {
    for s in ["srgb", "sRGB", "bt709", "rec-709", "709"] {
        assert_eq!(Primaries::parse(s).unwrap(), Primaries::Bt709, "{s}");
    }
    for s in ["p3", "P3", "display-p3", "displayP3", "dci_p3"] {
        assert_eq!(Primaries::parse(s).unwrap(), Primaries::DisplayP3, "{s}");
    }
    for s in ["rec2020", "Rec.2020", "bt2020"] {
        assert_eq!(Primaries::parse(s).unwrap(), Primaries::Bt2020, "{s}");
    }
    assert!(Primaries::parse("prophoto").is_err());
}

// --- ICC recognition, against numbers read off real files ---------------

/// Build a minimal profile carrying just the three colorant tags.
fn icc_with_colorants(m: [[f64; 3]; 3]) -> Vec<u8> {
    let mut icc = vec![0u8; 132];
    icc[128..132].copy_from_slice(&3u32.to_be_bytes());
    let mut body = Vec::new();
    for (col, sig) in [b"rXYZ", b"gXYZ", b"bXYZ"].into_iter().enumerate() {
        let off = 132 + 3 * 12 + body.len();
        icc.extend_from_slice(sig);
        icc.extend_from_slice(&(off as u32).to_be_bytes());
        icc.extend_from_slice(&20u32.to_be_bytes());
        body.extend_from_slice(b"XYZ ");
        body.extend_from_slice(&[0; 4]);
        for r in &m {
            body.extend_from_slice(&((r[col] * 65536.0).round() as i32).to_be_bytes());
        }
    }
    icc.extend_from_slice(&body);
    icc
}

/// The exact colorants exiftool reports for the profile Lightroom embeds in
/// its HDR TIFF — the 1998 HP-authored `sRGB IEC61966-2.1`, which has no
/// `cicp` tag, so this is the route that has to work.
#[test]
fn recognises_the_profile_lightroom_embeds() {
    let lr_srgb = [
        [0.43607, 0.38515, 0.14307],
        [0.22249, 0.71687, 0.06061],
        [0.01392, 0.09708, 0.71410],
    ];
    assert_eq!(
        primaries_from_icc(&icc_with_colorants(lr_srgb)),
        Some(Primaries::Bt709)
    );
}

/// A profile there is no matrix for must come back `None`, not the
/// nearest guess. Adobe RGB (1998) is the realistic case — an export space
/// Lightroom offers — and reading it as sRGB would silently desaturate every
/// pixel with nothing downstream able to notice.
#[test]
fn refuses_a_profile_it_has_no_matrix_for() {
    // Adobe RGB (1998) colorants, D50-adapted, as its ICC profile stores them.
    let adobe_rgb = [
        [0.60974, 0.20528, 0.14919],
        [0.31111, 0.62567, 0.06322],
        [0.01947, 0.06087, 0.74457],
    ];
    assert_eq!(primaries_from_icc(&icc_with_colorants(adobe_rgb)), None);
}

/// `cicp` wins when present, because it states the code rather than implying
/// it. Apple writes this tag.
#[test]
fn a_cicp_tag_is_read_directly() {
    let mut icc = vec![0u8; 132];
    icc[128..132].copy_from_slice(&1u32.to_be_bytes());
    icc.extend_from_slice(b"cicp");
    icc.extend_from_slice(&144u32.to_be_bytes());
    icc.extend_from_slice(&12u32.to_be_bytes());
    icc.resize(144, 0);
    icc.extend_from_slice(b"cicp");
    icc.extend_from_slice(&[0; 4]);
    icc.extend_from_slice(&[12, 13, 1, 1]); // P3 primaries, sRGB transfer
    assert_eq!(primaries_from_icc(&icc), Some(Primaries::DisplayP3));
}

/// Truncated and malformed profiles are input from outside, so they must
/// return `None` rather than panic on a slice.
#[test]
fn malformed_profiles_do_not_panic() {
    assert_eq!(primaries_from_icc(&[]), None);
    assert_eq!(primaries_from_icc(&[0u8; 131]), None);
    let mut absurd = vec![0u8; 132];
    absurd[128..132].copy_from_slice(&u32::MAX.to_be_bytes());
    assert_eq!(primaries_from_icc(&absurd), None);
    // A tag table pointing past the end of the profile.
    let mut past = vec![0u8; 132];
    past[128..132].copy_from_slice(&1u32.to_be_bytes());
    past.extend_from_slice(b"rXYZ");
    past.extend_from_slice(&9999u32.to_be_bytes());
    past.extend_from_slice(&20u32.to_be_bytes());
    assert_eq!(primaries_from_icc(&past), None);
    assert_eq!(icc_description(&[0u8; 8]), None);
}

#[test]
fn reads_a_v2_description() {
    let mut icc = vec![0u8; 132];
    icc[128..132].copy_from_slice(&1u32.to_be_bytes());
    let text = b"Adobe RGB (1998)\0";
    icc.extend_from_slice(b"desc");
    icc.extend_from_slice(&144u32.to_be_bytes());
    // The declared size must cover the whole payload, or `icc_tag` is right to
    // refuse it: signature + reserved + count + string.
    icc.extend_from_slice(&(12 + text.len() as u32).to_be_bytes());
    icc.resize(144, 0);
    icc.extend_from_slice(b"desc");
    icc.extend_from_slice(&[0; 4]);
    icc.extend_from_slice(&(text.len() as u32).to_be_bytes());
    icc.extend_from_slice(text);
    assert_eq!(icc_description(&icc).as_deref(), Some("Adobe RGB (1998)"));
}

const RGB709_TO_XYZ: [[f64; 3]; 3] = [
    [0.4123907993, 0.3575843394, 0.1804807884],
    [0.2126390059, 0.7151686788, 0.0721923154],
    [0.0193308187, 0.1191947798, 0.9505321522],
];
const XYZ_TO_RGB709: [[f64; 3]; 3] = [
    [3.2409699419, -1.5373831776, -0.4986107603],
    [-0.9692436363, 1.8759675015, 0.0415550574],
    [0.0556300797, -0.2039769589, 1.0569715142],
];
const P3_TO_XYZ: [[f64; 3]; 3] = [
    [0.4865709486, 0.2656676932, 0.1982172852],
    [0.2289745641, 0.6917385218, 0.0792869141],
    [0.0000000000, 0.0451133819, 1.0439443689],
];
const RGB2020_TO_XYZ: [[f64; 3]; 3] = [
    [0.6369580483, 0.1446169036, 0.1688809752],
    [0.2627002120, 0.6779980715, 0.0593017165],
    [0.0000000000, 0.0280726930, 1.0609850577],
];

/// Bradford XYZ D65 to D50, the adaptation ICC profiles are authored with.
const BRADFORD_D65_TO_D50: [[f64; 3]; 3] = [
    [1.0478112, 0.0228866, -0.0501270],
    [0.0295424, 0.9904844, -0.0170491],
    [-0.0092345, 0.0150436, 0.7521316],
];

fn mat_mul(a: [[f64; 3]; 3], b: [[f64; 3]; 3]) -> [[f64; 3]; 3] {
    let mut out = [[0.0; 3]; 3];
    for i in 0..3 {
        for j in 0..3 {
            out[i][j] = a[i][0] * b[0][j] + a[i][1] * b[1][j] + a[i][2] * b[2][j];
        }
    }
    out
}

fn to_xyz(p: Primaries) -> [[f64; 3]; 3] {
    match p {
        Primaries::Bt709 => RGB709_TO_XYZ,
        Primaries::DisplayP3 => P3_TO_XYZ,
        Primaries::Bt2020 => RGB2020_TO_XYZ,
    }
}

/// Derived rather than transcribed: whatever Bradford-adapting each reference
/// gives must round-trip back to that reference.
#[test]
fn recognises_every_known_set_from_its_colorants() {
    for p in Primaries::all() {
        let d50 = mat_mul(BRADFORD_D65_TO_D50, to_xyz(p));
        assert_eq!(primaries_from_icc(&icc_with_colorants(d50)), Some(p), "{p:?}");
    }
}

/// Narrowing yields negative components, which is why nothing narrows on its own.
#[test]
fn narrowing_does_go_negative() {
    let m = mat_mul(XYZ_TO_RGB709, P3_TO_XYZ);
    let out = [m[0][1], m[1][1], m[2][1]];
    assert!(out.iter().any(|v| *v < -0.01), "P3 green fits in 709? {out:?}");
    assert!(Primaries::Bt709.narrower_than(Primaries::DisplayP3));
    assert!(Primaries::DisplayP3.narrower_than(Primaries::Bt2020));
    assert!(!Primaries::Bt2020.narrower_than(Primaries::Bt709));
    assert!(!Primaries::DisplayP3.narrower_than(Primaries::DisplayP3));
}

#[test]
fn an_unknown_name_is_reported_without_its_separators() {
    let e = Primaries::parse("Pro-Photo").unwrap_err();
    assert_eq!(e.name, "prophoto");
}

#[test]
fn gamuts_are_ordered_by_size() {
    let all = Primaries::all();
    assert_eq!(all, [Primaries::Bt709, Primaries::DisplayP3, Primaries::Bt2020]);
    assert!(Primaries::Bt709.narrower_than(Primaries::DisplayP3));
    assert!(Primaries::DisplayP3.narrower_than(Primaries::Bt2020));
    assert!(!Primaries::Bt2020.narrower_than(Primaries::Bt2020));
    for p in all {
        assert_eq!(Primaries::parse(p.label()).unwrap(), p);
    }
}

#[test]
fn reads_a_v4_description() {
    let mut icc = vec![0u8; 132];
    icc[128..132].copy_from_slice(&1u32.to_be_bytes());
    let text: Vec<u8> = "Display P3".encode_utf16().flat_map(|u| u.to_be_bytes()).collect();
    icc.extend_from_slice(b"desc");
    icc.extend_from_slice(&144u32.to_be_bytes());
    icc.extend_from_slice(&(28 + text.len() as u32).to_be_bytes());
    icc.resize(144, 0);
    icc.extend_from_slice(b"mluc");
    icc.extend_from_slice(&[0; 4]);
    icc.extend_from_slice(&1u32.to_be_bytes());
    icc.extend_from_slice(&12u32.to_be_bytes());
    icc.extend_from_slice(b"enUS");
    icc.extend_from_slice(&(text.len() as u32).to_be_bytes());
    icc.extend_from_slice(&28u32.to_be_bytes());
    icc.extend_from_slice(&text);
    assert_eq!(icc_description(&icc).as_deref(), Some("Display P3"));
}

/// A profile with a v4 description of these code units.
fn described_in(units: &[u16]) -> Vec<u8> {
    let mut icc = vec![0u8; 128];
    icc.extend_from_slice(&1u32.to_be_bytes());
    icc.extend_from_slice(b"desc");
    icc.extend_from_slice(&144u32.to_be_bytes());
    icc.extend_from_slice(&(28 + 2 * units.len() as u32).to_be_bytes());
    icc.extend_from_slice(b"mluc");
    icc.extend_from_slice(&[0; 4]);
    icc.extend_from_slice(&1u32.to_be_bytes());
    icc.extend_from_slice(&12u32.to_be_bytes());
    icc.extend_from_slice(b"enUS");
    icc.extend_from_slice(&(2 * units.len() as u32).to_be_bytes());
    icc.extend_from_slice(&28u32.to_be_bytes());
    for u in units {
        icc.extend_from_slice(&u.to_be_bytes());
    }
    icc
}

/// Pairs of surrogates are one character, and halves that stand alone are replaced.
#[test]
fn a_v4_description_is_decoded_unit_by_unit() {
    for (units, text) in [
        (&[0x50, 0x33][..], "P3"),
        (&[0xe9, 0xffff], "\u{e9}\u{ffff}"),
        (&[0xd83d, 0xde00], "\u{1f600}"),
        (&[0xdbff, 0xdfff, 0x41], "\u{10ffff}A"),
        (&[0xd800], "\u{fffd}"),
        (&[0xdc00, 0x41], "\u{fffd}A"),
        (&[0xd800, 0x41], "\u{fffd}A"),
        (&[0xd800, 0xd83d, 0xde00], "\u{fffd}\u{1f600}"),
        (&[0xdc00, 0xd800], "\u{fffd}\u{fffd}"),
        (&[], ""),
    ] {
        assert_eq!(icc_description(&described_in(units)).as_deref(), Some(text), "{units:x?}");
    }
}

#[test]
fn an_unknown_colour_space_is_quoted() {
    assert_eq!(
        Primaries::parse("Pro-Photo").unwrap_err().message(),
        "unknown colour space \"prophoto\" (expected srgb, p3, or rec2020)"
    );
}
