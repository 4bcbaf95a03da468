//! Generation switches: which mipmap kinds to produce, how many wave/spectral
//! levels to keep, and the division factors of those levels.
use vstd::prelude::*;

verus! {

/// Kind of mipmap that can be generated.
#[derive(Debug, Clone, Copy, PartialEq, Eq, Hash, Structural)]
pub enum Feature {
    /// Waveform min/max peaks (the main RPKN mipmap, positive `div`).
    Wave,
    /// Spectral peaks (`div` is `-'s'`, one 32-bit freq|density code per peak and channel).
    Spectral,
    /// Loudness RMS (`div` is `-'r'`, one `f32` per peak and channel).
    Loudness,
}

/// Canonical name of a feature.
pub open spec fn feature_name(f: Feature) -> Seq<char> {
    match f {
        Feature::Wave => "wave"@,
        Feature::Spectral => "spectral"@,
        Feature::Loudness => "loudness"@,
    }
}

/// The feature whose canonical name is `s`, if any.
pub open spec fn parse_feature(s: Seq<char>) -> Option<Feature> {
    if s == "wave"@ {
        Some(Feature::Wave)
    } else if s == "spectral"@ {
        Some(Feature::Spectral)
    } else if s == "loudness"@ {
        Some(Feature::Loudness)
    } else {
        None
    }
}

/// Whether two byte slices hold the same bytes.
fn bytes_eq(a: &[u8], b: &[u8]) -> (r: bool)
    ensures
        r == (a@ == b@),
{
    let n = a.len();
    if n != b.len() {
        return false;
    }
    let mut i: usize = 0;
    while i < n
        invariant
            n == a@.len(),
            n == b@.len(),
            i <= n,
            forall|j: int| 0 <= j < i ==> a@[j] == b@[j],
        decreases n - i,
    {
        if a[i] != b[i] {
            return false;
        }
        i += 1;
    }
    assert(a@ =~= b@);
    true
}

/// Whether `s` is the string `lit`.
fn str_is(s: &str, lit: &str) -> (r: bool)
    ensures
        r == (s@ == lit@),
{
    let r = bytes_eq(s.as_bytes(), lit.as_bytes());
    proof {
        vstd::utf8::encode_utf8_decode_utf8(s@);
        vstd::utf8::encode_utf8_decode_utf8(lit@);
    }
    r
}

impl Feature {
    /// All features in canonical order (the order of their mipmaps in the output).
    pub const ALL: [Feature; 3] = [Feature::Wave, Feature::Spectral, Feature::Loudness];

    /// Parses a feature name: `"wave" | "spectral" | "loudness"`.
    pub fn parse(name: &str) -> (r: Option<Feature>)
        ensures
            r == parse_feature(name@),
    {
        if str_is(name, "wave") {
            Some(Feature::Wave)
        } else if str_is(name, "spectral") {
            Some(Feature::Spectral)
        } else if str_is(name, "loudness") {
            Some(Feature::Loudness)
        } else {
            None
        }
    }

    /// Canonical name (inverse of `parse`).
    pub fn name(self) -> (r: &'static str)
        ensures
            r@ == feature_name(self),
    {
        match self {
            Feature::Wave => "wave",
            Feature::Spectral => "spectral",
            Feature::Loudness => "loudness",
        }
    }
}

/// `parse` undoes `name`, and a name that parses is the canonical name of
/// the feature it parses to.
pub proof fn lemma_parse_name(f: Feature, s: Seq<char>)
    ensures
        parse_feature(feature_name(f)) == Some(f),
        parse_feature(s) == Some(f) ==> s == feature_name(f),
{
    reveal_strlit("wave");
    reveal_strlit("spectral");
    reveal_strlit("loudness");
    assert("wave"@.len() == 4);
    assert("spectral"@.len() == 8);
    assert("loudness"@.len() == 8);
    assert("wave"@ != "spectral"@);
    assert("wave"@ != "loudness"@);
    assert("spectral"@[0] != "loudness"@[0]);
}


/// Parsed feature names: the features in order, or the first unknown name.
pub open spec fn parse_names(names: Seq<String>) -> Result<Seq<Feature>, Seq<char>>
    decreases names.len(),
{
    if names.len() == 0 {
        Ok(Seq::empty())
    } else {
        match parse_names(names.drop_last()) {
            Err(e) => Err(e),
            Ok(fs) => match parse_feature(names.last()@) {
                Some(f) => Ok(fs.push(f)),
                None => Err(names.last()@),
            },
        }
    }
}

/// Parses a list of feature names; `None` means the default `[Wave]`.
/// The first unknown name is reported as `UnknownFeature`.
pub fn parse_features(names: Option<Vec<String>>) -> (r: Result<Vec<Feature>, OptionsError>)
    ensures
        match names {
            None => r matches Ok(v) && v@ == seq![Feature::Wave],
            Some(ns) => match parse_names(ns@) {
                Ok(fs) => r matches Ok(v) && v@ == fs,
                Err(name) => r matches Err(OptionsError::UnknownFeature(s)) && s@ == name,
            },
        },
{
    match names {
        None => {
            let mut v: Vec<Feature> = Vec::new();
            v.push(Feature::Wave);
            assert(v@ =~= seq![Feature::Wave]);
            Ok(v)
        },
        Some(ns) => {
            let n = ns.len();
            let mut v: Vec<Feature> = Vec::new();
            let mut i: usize = 0;
            while i < n
                invariant
                    names == Some(ns),
                    n == ns@.len(),
                    i <= n,
                    parse_names(ns@.take(i as int)) == Ok::<Seq<Feature>, Seq<char>>(v@),
                decreases n - i,
            {
                assert(ns@.take(i + 1).drop_last() == ns@.take(i as int));
                assert(ns@.take(i + 1).last() == ns@[i as int]);
                match Feature::parse(ns[i].as_str()) {
                    Some(f) => {
                        v.push(f);
                    },
                    None => {
                        proof {
                            assert(parse_feature(ns@[i as int]@) is None);
                            assert(parse_names(ns@.take(i + 1)) == Err::<Seq<Feature>, Seq<char>>(ns@[i as int]@));
                            lemma_parse_names_err(ns@, (i + 1) as int);
                        }
                        let name = ns[i].clone();
                        assert(name@ == ns@[i as int]@);
                        return Err(OptionsError::UnknownFeature(name));
                    },
                }
                i += 1;
            }
            assert(ns@.take(n as int) == ns@);
            Ok(v)
        },
    }
}

/// Once a prefix of the names holds an unknown name, so does the whole list.
proof fn lemma_parse_names_err(names: Seq<String>, i: int)
    requires
        0 <= i <= names.len(),
        parse_names(names.take(i)) is Err,
    ensures
        parse_names(names) == parse_names(names.take(i)),
    decreases names.len() - i,
{
    if i < names.len() {
        assert(names.take(i + 1).drop_last() == names.take(i));
        lemma_parse_names_err(names, i + 1);
    } else {
        assert(names.take(i) == names);
    }
}

/// Options of a streamer.
#[derive(Debug, Clone, PartialEq)]
pub struct StreamerOptions {
    /// Division factors of the wave levels, finest first (spectral levels mirror them).
    pub divs: Vec<u32>,
    /// Enabled features, without duplicates, in the order of `Feature::ALL`.
    pub features: Vec<Feature>,
    /// Number of finest wave/spectral levels kept (1: only the finest).
    pub mipmap_levels: usize,
}

/// Option validation error.
#[derive(Debug, Clone, PartialEq, Eq)]
pub enum OptionsError {
    /// channels < 1
    InvalidChannels(u32),
    /// features is empty
    EmptyFeatures,
    /// unknown feature name
    UnknownFeature(String),
    /// mipmap_levels < 1
    EmptyMipmapLevels,
    /// a division factor is 0 (or the list is empty)
    InvalidDiv(u32),
}

/// `max(a, 1)`.
pub open spec fn at_least_one(a: u32) -> u32 {
    if a >= 1 {
        a
    } else {
        1
    }
}

/// Default wave levels: about 300, 20 and 1 peaks per second.
pub open spec fn default_divs(sample_rate: u32) -> Seq<u32> {
    seq![at_least_one(sample_rate / 300), at_least_one(sample_rate / 20), sample_rate]
}

/// Default wave levels: about 300, 20 and 1 peaks per second
/// (the two finer factors are at least 1).
pub fn choose_division_factors(sample_rate: u32) -> (r: Vec<u32>)
    ensures
        r@ == default_divs(sample_rate),
{
    let fine = if sample_rate / 300 >= 1 {
        sample_rate / 300
    } else {
        1
    };
    let mid = if sample_rate / 20 >= 1 {
        sample_rate / 20
    } else {
        1
    };
    let mut v: Vec<u32> = Vec::new();
    v.push(fine);
    v.push(mid);
    v.push(sample_rate);
    assert(v@ =~= default_divs(sample_rate));
    v
}

/// The features of `fs`, without duplicates, in canonical order.
pub open spec fn canonical_features(fs: Seq<Feature>) -> Seq<Feature> {
    (if fs.contains(Feature::Wave) {
        seq![Feature::Wave]
    } else {
        Seq::empty()
    }) + (if fs.contains(Feature::Spectral) {
        seq![Feature::Spectral]
    } else {
        Seq::empty()
    }) + (if fs.contains(Feature::Loudness) {
        seq![Feature::Loudness]
    } else {
        Seq::empty()
    })
}

/// Result of option validation for the given arguments.
pub open spec fn options_result(
    sample_rate: u32,
    channels: u32,
    divs: Option<Seq<u32>>,
    features: Option<Seq<Feature>>,
    mipmap_levels: usize,
) -> Result<(Seq<u32>, Seq<Feature>), OptionsError> {
    let d = match divs {
        Some(d) => d,
        None => default_divs(sample_rate),
    };
    if channels < 1 {
        Err(OptionsError::InvalidChannels(channels))
    } else if d.len() == 0 || d.contains(0u32) {
        Err(OptionsError::InvalidDiv(0))
    } else if features matches Some(f) && f.len() == 0 {
        Err(OptionsError::EmptyFeatures)
    } else if mipmap_levels < 1 {
        Err(OptionsError::EmptyMipmapLevels)
    } else {
        Ok(
            (
                d,
                match features {
                    Some(f) => canonical_features(f),
                    None => seq![Feature::Wave],
                },
            ),
        )
    }
}

/// Whether `v` holds `f`.
fn contains_feature(v: &Vec<Feature>, f: Feature) -> (r: bool)
    ensures
        r == v@.contains(f),
{
    let n = v.len();
    let mut i: usize = 0;
    while i < n
        invariant
            n == v@.len(),
            i <= n,
            forall|j: int| 0 <= j < i ==> v@[j] != f,
        decreases n - i,
    {
        if v[i] == f {
            return true;
        }
        i += 1;
    }
    false
}

/// Whether `v` holds a zero.
fn contains_zero(v: &Vec<u32>) -> (r: bool)
    ensures
        r == v@.contains(0u32),
{
    let n = v.len();
    let mut i: usize = 0;
    while i < n
        invariant
            n == v@.len(),
            i <= n,
            forall|j: int| 0 <= j < i ==> v@[j] != 0,
        decreases n - i,
    {
        if v[i] == 0 {
            return true;
        }
        i += 1;
    }
    false
}

impl StreamerOptions {
    /// Builds and validates options.
    ///
    /// - `divs == None`: `choose_division_factors(sample_rate)`
    /// - `features == None`: only `[Wave]`
    /// - `mipmap_levels == 1`: only the finest level is kept
    pub fn new(
        sample_rate: u32,
        channels: u32,
        divs: Option<Vec<u32>>,
        features: Option<Vec<Feature>>,
        mipmap_levels: usize,
    ) -> (r: Result<StreamerOptions, OptionsError>)
        ensures
            match options_result(
                sample_rate,
                channels,
                match divs {
                    Some(d) => Some(d@),
                    None => None,
                },
                match features {
                    Some(f) => Some(f@),
                    None => None,
                },
                mipmap_levels,
            ) {
                Ok((d, f)) => r matches Ok(o) && o.divs@ == d && o.features@ == f
                    && o.mipmap_levels == mipmap_levels,
                Err(e) => r == Err::<StreamerOptions, OptionsError>(e),
            },
    {
        if channels < 1 {
            return Err(OptionsError::InvalidChannels(channels));
        }
        let divs = match divs {
            Some(d) => {
                if d.len() == 0 {
                    return Err(OptionsError::InvalidDiv(0));
                }
                d
            },
            None => choose_division_factors(sample_rate),
        };
        if contains_zero(&divs) {
            return Err(OptionsError::InvalidDiv(0));
        }
        let features = match features {
            Some(f) => {
                if f.len() == 0 {
                    return Err(OptionsError::EmptyFeatures);
                }
                let mut seen: Vec<Feature> = Vec::new();
                if contains_feature(&f, Feature::Wave) {
                    seen.push(Feature::Wave);
                }
                if contains_feature(&f, Feature::Spectral) {
                    seen.push(Feature::Spectral);
                }
                if contains_feature(&f, Feature::Loudness) {
                    seen.push(Feature::Loudness);
                }
                assert(seen@ =~= canonical_features(f@));
                seen
            },
            None => {
                let mut w: Vec<Feature> = Vec::new();
                w.push(Feature::Wave);
                assert(w@ =~= seq![Feature::Wave]);
                w
            },
        };
        if mipmap_levels < 1 {
            return Err(OptionsError::EmptyMipmapLevels);
        }
        Ok(StreamerOptions { divs, features, mipmap_levels })
    }

    /// Whether `feat` is enabled.
    pub fn is_enabled(&self, feat: Feature) -> (r: bool)
        ensures
            r == self.features@.contains(feat),
    {
        contains_feature(&self.features, feat)
    }

    /// Number of wave/spectral levels generated: `min(mipmap_levels, divs.len())`.
    pub open spec fn spec_layer_count(&self) -> nat {
        if self.mipmap_levels < self.divs@.len() {
            self.mipmap_levels as nat
        } else {
            self.divs@.len()
        }
    }

    /// Division factors of the generated wave/spectral levels (the finest
    /// `mipmap_levels` of `divs`).
    pub fn wave_divs(&self) -> (r: &[u32])
        ensures
            r@ == self.divs@.take(self.spec_layer_count() as int),
    {
        let n = if self.mipmap_levels < self.divs.len() {
            self.mipmap_levels
        } else {
            self.divs.len()
        };
        let s = self.divs.as_slice();
        &s[0..n]
    }

    /// Number of generated wave/spectral levels.
    pub fn layer_count(&self) -> (n: usize)
        ensures
            n == self.spec_layer_count(),
    {
        self.wave_divs().len()
    }
}

/// The enabled features depend only on which features were requested, not
/// on their order or repetition.
pub proof fn lemma_features_order_free(f1: Seq<Feature>, f2: Seq<Feature>)
    requires
        forall|x: Feature| f1.contains(x) == f2.contains(x),
    ensures
        canonical_features(f1) == canonical_features(f2),
{
    assert(f1.contains(Feature::Wave) == f2.contains(Feature::Wave));
    assert(f1.contains(Feature::Spectral) == f2.contains(Feature::Spectral));
    assert(f1.contains(Feature::Loudness) == f2.contains(Feature::Loudness));
}

} // verus!
