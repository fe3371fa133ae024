//! Configuration of the encoder and of the agent.

use vstd::prelude::*;
use vstd::string::*;

use crate::json::{self, get, Json, JsonV, Num, NumV};
use crate::model::Layout;
use crate::sequence::{self, debug_text, QType};
use crate::text::{self, decimal, same};

verus! {

broadcast use crate::json::lemma_tree;

// ---------------------------------------------------------------------------------------------
// Temperatures

/// The top bit of a 64-bit number.
pub const SIGN_64: u64 = 0x8000_0000_0000_0000;

/// The bits of a 64-bit infinity.
pub const INFINITY_64: u64 = 0x7ff0_0000_0000_0000;

/// One.
pub const ONE_64: u64 = 0x3ff0_0000_0000_0000;

/// The least temperature that answers use: one half.
pub const TEMP_MIN: u64 = 0x3fe0_0000_0000_0000;

/// The greatest temperature that answers use: five.
pub const TEMP_MAX: u64 = 0x4014_0000_0000_0000;

/// Whether a 64-bit pattern is a number and not infinite.
pub open spec fn is_finite(bits: u64) -> bool {
    if bits < SIGN_64 {
        bits < INFINITY_64
    } else {
        bits - SIGN_64 < INFINITY_64
    }
}

/// A temperature as answers use it: between the least and the greatest, and one when it is not
/// finite.
pub open spec fn clamped(t: u64) -> u64 {
    if !is_finite(t) {
        ONE_64
    } else if t >= SIGN_64 || t < TEMP_MIN {
        TEMP_MIN
    } else if t > TEMP_MAX {
        TEMP_MAX
    } else {
        t
    }
}

/// A temperature as answers use it. A fitted temperature below one half sharpens rather than
/// calibrates.
pub fn clamp_temperature(t: u64) -> (r: u64)
    ensures
        r == clamped(t),
        TEMP_MIN <= r <= TEMP_MAX,
{
    let finite = if t < SIGN_64 {
        t < INFINITY_64
    } else {
        t - SIGN_64 < INFINITY_64
    };
    if !finite {
        ONE_64
    } else if t >= SIGN_64 || t < TEMP_MIN {
        TEMP_MIN
    } else if t > TEMP_MAX {
        TEMP_MAX
    } else {
        t
    }
}

/// Clamping twice is clamping once.
pub proof fn lemma_clamped(t: u64)
    ensures
        clamped(clamped(t)) == clamped(t),
        clamped(ONE_64) == ONE_64,
        TEMP_MIN <= clamped(t) <= TEMP_MAX,
{
}

/// Option counts from which a shipped temperature may not sharpen.
pub const MANY_OPTIONS: usize = 11;

/// The bucket that an option count falls into. Buckets stand in the order of their names.
pub open spec fn bucket_no(k: nat) -> int {
    if k <= 2 {
        1
    } else if k <= 5 {
        2
    } else if k <= 10 {
        3
    } else {
        0
    }
}

/// The name of a bucket.
pub open spec fn bucket_text(b: int) -> Seq<char> {
    if b == 0 {
        "11+"@
    } else if b == 1 {
        "2"@
    } else if b == 2 {
        "3-5"@
    } else {
        "6-10"@
    }
}

/// The name of a bucket.
pub fn bucket_label(b: usize) -> (r: &'static str)
    ensures
        r@ == bucket_text(b as int),
{
    if b == 0 {
        "11+"
    } else if b == 1 {
        "2"
    } else if b == 2 {
        "3-5"
    } else {
        "6-10"
    }
}

/// The name of a temperature: the question's type and the bucket of its option count.
pub open spec fn bucket_name(t: QType, k: nat) -> Seq<char> {
    t.label() + ":"@ + bucket_text(bucket_no(k))
}

/// The name of a temperature, e.g. `choice:3-5`.
pub fn temperature_key(qtype: QType, k: usize) -> (r: String)
    ensures
        r@ == bucket_name(qtype, k as nat),
{
    let b: usize = if k <= 2 {
        1
    } else if k <= 5 {
        2
    } else if k <= 10 {
        3
    } else {
        0
    };
    let mut r = qtype.name().to_owned();
    r.append(":");
    r.append(bucket_label(b));
    r
}

/// The agent's configuration. Temperatures are held as the bits of 64-bit floats.
#[derive(Debug, PartialEq, Eq)]
pub struct AgentConfig {
    pub layout: Layout,
    pub head_layers: usize,
    pub act_costs: Vec<(String, Json)>,
    pub max_len: usize,
    pub head_max_len: usize,
    /// Temperature per question type: choice, score, noul.
    pub temperature: Vec<u64>,
    /// Temperature per type and bucket of option counts, e.g. `choice:3-5`; each name once.
    pub temperature_by_options: Vec<(String, u64)>,
    /// How the temperatures were refit; absent for shipped ones.
    pub calibration: Option<Json>,
}

/// Layers of the decision head when the configuration names none.
pub fn default_head_layers() -> (n: usize)
    ensures
        n == 2,
{
    2
}

/// The row length when the configuration names none.
pub fn default_max_len() -> (n: usize)
    ensures
        n == 512,
{
    512
}

/// The question length when the configuration names none.
pub fn default_head_max_len() -> (n: usize)
    ensures
        n == 192,
{
    192
}

/// The temperatures when the configuration names none: one for each type.
pub fn default_temperature() -> (r: Vec<u64>)
    ensures
        r@ == seq![ONE_64, ONE_64, ONE_64],
{
    let mut r: Vec<u64> = Vec::new();
    r.push(ONE_64);
    r.push(ONE_64);
    r.push(ONE_64);
    proof {
        assert(r@ =~= seq![ONE_64, ONE_64, ONE_64]);
    }
    r
}

/// Names with their temperatures.
pub open spec fn fits(v: Seq<(String, u64)>) -> Seq<(Seq<char>, u64)> {
    Seq::new(v.len(), |i: int| (v[i].0@, v[i].1))
}

/// The temperature of a name.
pub open spec fn fit_of(v: Seq<(Seq<char>, u64)>, key: Seq<char>) -> Option<u64>
    decreases v.len(),
{
    if v.len() == 0 {
        None
    } else if v[0].0 == key {
        Some(v[0].1)
    } else {
        fit_of(v.skip(1), key)
    }
}

/// The temperature of a name.
pub fn find_fit(v: &Vec<(String, u64)>, key: &str) -> (r: Option<u64>)
    ensures
        r == fit_of(fits(v@), key@),
{
    let ghost all = fits(v@);
    let mut i: usize = 0;
    proof {
        assert(all.skip(0) =~= all);
    }
    while i < v.len()
        invariant
            i <= v@.len(),
            all == fits(v@),
            fit_of(all.skip(i as int), key@) == fit_of(all, key@),
        decreases v@.len() - i,
    {
        proof {
            assert(all.skip(i as int)[0] == all[i as int]);
            assert(all.skip(i as int).skip(1) =~= all.skip(i + 1));
        }
        if same(v[i].0.as_str(), key) {
            return Some(v[i].1);
        }
        i += 1;
    }
    None
}

impl AgentConfig {
    /// How many actions the act head has.
    pub fn n_act(&self) -> (n: usize)
        requires
            self.act_costs@.len() < usize::MAX,
        ensures
            n == self.act_costs@.len() + 1,
    {
        self.act_costs.len() + 1
    }

    /// The temperature that was fitted for a type and an option count: that of its bucket, else
    /// that of its type, else one.
    pub open spec fn fitted(self, t: QType, k: nat) -> u64 {
        match fit_of(fits(self.temperature_by_options@), bucket_name(t, k)) {
            Some(x) => x,
            None => if t.place() < self.temperature@.len() {
                self.temperature@[t.place()]
            } else {
                ONE_64
            },
        }
    }

    /// The temperature that answers use for a type and an option count: the fitted one, clamped;
    /// but with many options no less than one, unless it was refit.
    pub open spec fn effective(self, t: QType, k: nat) -> u64 {
        let x = clamped(self.fitted(t, k));
        if k >= MANY_OPTIONS && self.calibration is None && x < ONE_64 {
            ONE_64
        } else {
            x
        }
    }
}

/// The temperature that answers use for a question type and option count. A shipped temperature
/// that sharpens makes an unanswerable question's confidence jump with the option count, so with
/// many options only a refit one may go below one.
pub fn effective_temperature(cfg: &AgentConfig, qtype: QType, k: usize) -> (r: u64)
    ensures
        r == cfg.effective(qtype, k as nat),
        TEMP_MIN <= r <= TEMP_MAX,
        k >= MANY_OPTIONS && cfg.calibration is None ==> r >= ONE_64,
{
    let key = temperature_key(qtype, k);
    let t: u64 = match find_fit(&cfg.temperature_by_options, key.as_str()) {
        Some(t) => t,
        None => {
            let i: usize = qtype.index();
            if i < cfg.temperature.len() {
                cfg.temperature[i]
            } else {
                ONE_64
            }
        },
    };
    let t: u64 = clamp_temperature(t);
    if k >= MANY_OPTIONS && cfg.calibration.is_none() && t < ONE_64 {
        ONE_64
    } else {
        t
    }
}

/// Takes the temperatures of a calibration file, which needs one per question type; the error is
/// how many it has.
pub fn apply_calibration(
    cfg: &mut AgentConfig,
    temperature: Vec<u64>,
    by_options: Vec<(String, u64)>,
    calibration: Option<Json>,
) -> (r: Result<(), usize>)
    ensures
        match r {
            Ok(_) => {
                &&& temperature@.len() == 3
                &&& final(cfg).temperature@ == temperature@
                &&& fits(final(cfg).temperature_by_options@) == fits(by_options@)
                &&& final(cfg).calibration matches Some(c) && c@ == (match calibration {
                    Some(c) => c@,
                    None => JsonV::Object(Seq::empty()),
                })
                &&& *final(cfg) == (AgentConfig {
                    temperature: final(cfg).temperature,
                    temperature_by_options: final(cfg).temperature_by_options,
                    calibration: final(cfg).calibration,
                    ..*old(cfg)
                })
            },
            Err(n) => n == temperature@.len() && n != 3 && *final(cfg) == *old(cfg),
        },
{
    if temperature.len() != 3 {
        return Err(temperature.len());
    }
    cfg.temperature = temperature;
    cfg.temperature_by_options = by_options;
    let empty = Json::Object(Vec::new());
    proof {
        assert(empty@->Object_0 =~= Seq::empty());
    }
    cfg.calibration = Some(
        match calibration {
            Some(c) => c,
            None => empty,
        },
    );
    Ok(())
}

// ---------------------------------------------------------------------------------------------
// The encoder

/// The encoder's configuration. Numbers that need not be whole are held as they are written.
#[derive(Debug, PartialEq, Eq)]
pub struct EncoderConfig {
    pub vocab_size: usize,
    pub hidden_size: usize,
    pub num_hidden_layers: usize,
    pub num_attention_heads: usize,
    pub intermediate_size: usize,
    pub max_position_embeddings: usize,
    pub norm_eps: Num,
    pub norm_bias: bool,
    pub attention_bias: bool,
    pub mlp_bias: bool,
    pub pad_token_id: u32,
    pub global_attn_every_n_layers: usize,
    pub global_rope_theta: Num,
    pub local_rope_theta: Num,
    /// The local window; each token sees keys at most half of it away.
    pub local_attention: usize,
    /// Which layers see only the local window.
    pub local_layers: Vec<bool>,
}

/// The value of an encoder's configuration.
#[verifier::ext_equal]
pub struct EncoderV {
    pub vocab_size: nat,
    pub hidden_size: nat,
    pub num_hidden_layers: nat,
    pub num_attention_heads: nat,
    pub intermediate_size: nat,
    pub max_position_embeddings: nat,
    pub norm_eps: NumV,
    pub norm_bias: bool,
    pub attention_bias: bool,
    pub mlp_bias: bool,
    pub pad_token_id: nat,
    pub global_attn_every_n_layers: nat,
    pub global_rope_theta: NumV,
    pub local_rope_theta: NumV,
    pub local_attention: nat,
    pub local_layers: Seq<bool>,
}

impl View for EncoderConfig {
    type V = EncoderV;

    open spec fn view(&self) -> EncoderV {
        EncoderV {
            vocab_size: self.vocab_size as nat,
            hidden_size: self.hidden_size as nat,
            num_hidden_layers: self.num_hidden_layers as nat,
            num_attention_heads: self.num_attention_heads as nat,
            intermediate_size: self.intermediate_size as nat,
            max_position_embeddings: self.max_position_embeddings as nat,
            norm_eps: self.norm_eps@,
            norm_bias: self.norm_bias,
            attention_bias: self.attention_bias,
            mlp_bias: self.mlp_bias,
            pad_token_id: self.pad_token_id as nat,
            global_attn_every_n_layers: self.global_attn_every_n_layers as nat,
            global_rope_theta: self.global_rope_theta@,
            local_rope_theta: self.local_rope_theta@,
            local_attention: self.local_attention as nat,
            local_layers: self.local_layers@,
        }
    }
}

/// The encoder's settings as its file gives them.
pub struct RawEncoderConfig {
    pub vocab_size: usize,
    pub hidden_size: usize,
    pub num_hidden_layers: usize,
    pub num_attention_heads: usize,
    pub intermediate_size: usize,
    pub max_position_embeddings: usize,
    pub norm_eps: Option<Num>,
    pub layer_norm_eps: Option<Num>,
    pub norm_bias: bool,
    pub attention_bias: bool,
    pub mlp_bias: bool,
    pub pad_token_id: Option<u32>,
    pub global_attn_every_n_layers: usize,
    pub global_rope_theta: Option<Num>,
    pub local_rope_theta: Option<Num>,
    pub local_attention: usize,
    pub rope_parameters: Option<Json>,
    pub layer_types: Option<Vec<String>>,
    pub hidden_activation: Option<String>,
}

/// Positions when the configuration names none.
pub fn default_max_pos() -> (n: usize)
    ensures
        n == 8192,
{
    8192
}

/// How often a layer sees everything when the configuration does not say.
pub fn default_global_every() -> (n: usize)
    ensures
        n == 3,
{
    3
}

/// The local window when the configuration names none.
pub fn default_local_attention() -> (n: usize)
    ensures
        n == 128,
{
    128
}

/// Why settings are no configuration.
#[derive(Debug, PartialEq, Eq)]
pub enum ConfigError {
    /// The activation is not the one there is.
    Activation(String),
    /// How many layer types there are, and how many layers.
    LayerCount(usize, usize),
    /// A layer type that is none.
    LayerType(String),
}

/// The value of a configuration error.
#[verifier::ext_equal]
pub enum ConfigErrorV {
    Activation(Seq<char>),
    LayerCount(nat, nat),
    LayerType(Seq<char>),
}

impl View for ConfigError {
    type V = ConfigErrorV;

    open spec fn view(&self) -> ConfigErrorV {
        match self {
            ConfigError::Activation(s) => ConfigErrorV::Activation(s@),
            ConfigError::LayerCount(n, m) => ConfigErrorV::LayerCount(*n as nat, *m as nat),
            ConfigError::LayerType(s) => ConfigErrorV::LayerType(s@),
        }
    }
}

impl ConfigErrorV {
    /// The error in words.
    pub open spec fn words(self) -> Seq<char> {
        match self {
            ConfigErrorV::Activation(s) => "unsupported hidden_activation "@ + sequence::debug_of(
                s,
            ) + ": only exact (erf) gelu is implemented"@,
            ConfigErrorV::LayerCount(n, m) => "layer_types has "@ + text::dec(n)
                + " entries for "@ + text::dec(m) + " layers"@,
            ConfigErrorV::LayerType(s) => "unknown layer type "@ + sequence::debug_of(s),
        }
    }
}

impl ConfigError {
    /// The error in words.
    pub fn message(&self) -> (r: String)
        ensures
            r@ == self@.words(),
    {
        match self {
            ConfigError::Activation(s) => {
                let mut r = "unsupported hidden_activation ".to_owned();
                r.append(debug_text(s.as_str()).as_str());
                r.append(": only exact (erf) gelu is implemented");
                r
            },
            ConfigError::LayerCount(n, m) => {
                let mut r = "layer_types has ".to_owned();
                r.append(decimal(*n as u64).as_str());
                r.append(" entries for ");
                r.append(decimal(*m as u64).as_str());
                r.append(" layers");
                r
            },
            ConfigError::LayerType(s) => {
                let mut r = "unknown layer type ".to_owned();
                r.append(debug_text(s.as_str()).as_str());
                r
            },
        }
    }
}

/// The number of an optional setting.
pub open spec fn maybe_num(n: Option<Num>) -> Option<NumV> {
    match n {
        Some(n) => Some(n@),
        None => None,
    }
}

/// The first number there is, or else `usual`.
pub open spec fn num_or(a: Option<NumV>, usual: NumV) -> NumV {
    match a {
        Some(n) => n,
        None => usual,
    }
}

/// The base that an object's `rope_theta` gives.
pub open spec fn theta_in(v: JsonV) -> Option<NumV> {
    match v {
        JsonV::Object(o) => match json::member(o, "rope_theta"@) {
            Some(JsonV::Number(n)) => Some(n),
            _ => None,
        },
        _ => None,
    }
}

/// The base that rope parameters give a sort of attention: its own, or else the flat one.
pub open spec fn theta_for(rope: JsonV, key: Seq<char>) -> Option<NumV> {
    match rope {
        JsonV::Object(o) => match json::member(o, key) {
            Some(p) => match theta_in(p) {
                Some(n) => Some(n),
                None => theta_in(rope),
            },
            None => theta_in(rope),
        },
        _ => None,
    }
}

/// The base of a sort of attention: what the rope parameters give, else the flat setting, else
/// the usual one.
pub open spec fn theta(
    rope: Option<JsonV>,
    key: Seq<char>,
    flat: Option<NumV>,
    usual: NumV,
) -> NumV {
    match rope {
        Some(r) => num_or(theta_for(r, key), num_or(flat, usual)),
        None => num_or(flat, usual),
    }
}

/// Whether a layer type is the local one.
pub open spec fn layer_kind(t: Seq<char>) -> Option<bool> {
    if t == "sliding_attention"@ {
        Some(true)
    } else if t == "full_attention"@ {
        Some(false)
    } else {
        None
    }
}

/// Which layers are local, by their types.
pub open spec fn kinds(types: Seq<Seq<char>>) -> Result<Seq<bool>, ConfigErrorV>
    decreases types.len(),
{
    if types.len() == 0 {
        Ok(Seq::empty())
    } else {
        match kinds(types.drop_last()) {
            Err(e) => Err(e),
            Ok(k) => match layer_kind(types.last()) {
                Some(b) => Ok(k.push(b)),
                None => Err(ConfigErrorV::LayerType(types.last())),
            },
        }
    }
}

/// Which layers are local: by their types, or every one that is not a multiple of `every`.
pub open spec fn local_layers_of(
    types: Option<Seq<Seq<char>>>,
    layers: nat,
    every: nat,
) -> Result<Seq<bool>, ConfigErrorV> {
    match types {
        Some(t) => if t.len() != layers {
            Err(ConfigErrorV::LayerCount(t.len(), layers))
        } else {
            kinds(t)
        },
        None => Ok(Seq::new(layers, |i: int| i % every as int != 0)),
    }
}

/// The texts of an optional list.
pub open spec fn maybe_texts(v: Option<Vec<String>>) -> Option<Seq<Seq<char>>> {
    match v {
        Some(t) => Some(text::texts(t@)),
        None => None,
    }
}

/// The configuration that settings give.
pub open spec fn encoder_of(raw: RawEncoderConfig) -> Result<EncoderV, ConfigErrorV> {
    let rope = sequence::maybe(raw.rope_parameters);
    if raw.hidden_activation is Some && raw.hidden_activation->0@ != "gelu"@ {
        Err(ConfigErrorV::Activation(raw.hidden_activation->0@))
    } else {
        match local_layers_of(
            maybe_texts(raw.layer_types),
            raw.num_hidden_layers as nat,
            raw.global_attn_every_n_layers as nat,
        ) {
            Err(e) => Err(e),
            Ok(local_layers) => Ok(
                EncoderV {
                    vocab_size: raw.vocab_size as nat,
                    hidden_size: raw.hidden_size as nat,
                    num_hidden_layers: raw.num_hidden_layers as nat,
                    num_attention_heads: raw.num_attention_heads as nat,
                    intermediate_size: raw.intermediate_size as nat,
                    max_position_embeddings: raw.max_position_embeddings as nat,
                    norm_eps: num_or(
                        maybe_num(raw.norm_eps),
                        num_or(maybe_num(raw.layer_norm_eps), NumV::Float("1e-5"@)),
                    ),
                    norm_bias: raw.norm_bias,
                    attention_bias: raw.attention_bias,
                    mlp_bias: raw.mlp_bias,
                    pad_token_id: match raw.pad_token_id {
                        Some(p) => p as nat,
                        None => 0,
                    },
                    global_attn_every_n_layers: raw.global_attn_every_n_layers as nat,
                    global_rope_theta: theta(
                        rope,
                        "full_attention"@,
                        maybe_num(raw.global_rope_theta),
                        NumV::Float("160000.0"@),
                    ),
                    local_rope_theta: theta(
                        rope,
                        "sliding_attention"@,
                        maybe_num(raw.local_rope_theta),
                        NumV::Float("10000.0"@),
                    ),
                    local_attention: raw.local_attention as nat,
                    local_layers,
                },
            ),
        }
    }
}

fn read_theta(v: &Json) -> (r: Option<Num>)
    ensures
        maybe_num(r) == theta_in(v@),
{
    match v {
        Json::Object(o) => match get(o, "rope_theta") {
            Some(Json::Number(n)) => Some(n.copy()),
            _ => None,
        },
        _ => None,
    }
}

fn pick_theta(
    rope: &Option<Json>,
    key: &str,
    flat: Option<Num>,
    usual: &str,
) -> (r: Num)
    ensures
        r@ == theta(sequence::maybe(*rope), key@, maybe_num(flat), NumV::Float(usual@)),
{
    let given = match rope {
        Some(r) => match r {
            Json::Object(o) => match get(o, key) {
                Some(p) => match read_theta(p) {
                    Some(n) => Some(n),
                    None => read_theta(r),
                },
                None => read_theta(r),
            },
            _ => None,
        },
        None => None,
    };
    match given {
        Some(n) => n,
        None => match flat {
            Some(n) => n,
            None => Num::Float(usual.to_owned()),
        },
    }
}

/// What is wrong with the first layer types is wrong with all.
proof fn lemma_kinds_fail(types: Seq<Seq<char>>, n: int)
    requires
        0 <= n <= types.len(),
        kinds(types.take(n)) is Err,
    ensures
        kinds(types) == kinds(types.take(n)),
    decreases types.len() - n,
{
    if n < types.len() {
        assert(types.take(n + 1).drop_last() =~= types.take(n));
        lemma_kinds_fail(types, n + 1);
    } else {
        assert(types.take(n) =~= types);
    }
}

fn read_layers(types: &Option<Vec<String>>, layers: usize, every: usize) -> (r: Result<
    Vec<bool>,
    ConfigError,
>)
    requires
        types is None && layers > 0 ==> every > 0,
    ensures
        match r {
            Ok(v) => local_layers_of(maybe_texts(*types), layers as nat, every as nat) == Ok::<
                Seq<bool>,
                ConfigErrorV,
            >(v@),
            Err(e) => local_layers_of(maybe_texts(*types), layers as nat, every as nat) == Err::<
                Seq<bool>,
                ConfigErrorV,
            >(e@),
        },
{
    let mut r: Vec<bool> = Vec::new();
    match types {
        Some(t) => {
            let ghost all = text::texts(t@);
            if t.len() != layers {
                return Err(ConfigError::LayerCount(t.len(), layers));
            }
            let mut i: usize = 0;
            proof {
                assert(all.take(0) =~= Seq::empty());
                assert(r@ =~= Seq::empty());
            }
            while i < t.len()
                invariant
                    i <= t@.len(),
                    t@.len() == layers,
                    *types == Some(*t),
                    all == text::texts(t@),
                    kinds(all.take(i as int)) == Ok::<Seq<bool>, ConfigErrorV>(r@),
                decreases t@.len() - i,
            {
                proof {
                    assert(all.take(i + 1).drop_last() =~= all.take(i as int));
                    assert(all.take(i + 1).last() == t@[i as int]@);
                }
                if same(t[i].as_str(), "sliding_attention") {
                    r.push(true);
                } else if same(t[i].as_str(), "full_attention") {
                    r.push(false);
                } else {
                    let s = t[i].clone();
                    proof {
                        lemma_kinds_fail(all, i + 1);
                    }
                    return Err(ConfigError::LayerType(s));
                }
                i += 1;
            }
            proof {
                assert(all.take(i as int) =~= all);
            }
        },
        None => {
            let ghost all = Seq::new(layers as nat, |i: int| i % every as int != 0);
            let mut i: usize = 0;
            proof {
                assert(r@ =~= all.take(0));
            }
            while i < layers
                invariant
                    i <= layers,
                    layers > 0 ==> every > 0,
                    all == Seq::new(layers as nat, |i: int| i % every as int != 0),
                    r@ == all.take(i as int),
                decreases layers - i,
            {
                r.push(i % every != 0);
                proof {
                    assert(all.take(i + 1) =~= all.take(i as int).push(all[i as int]));
                }
                i += 1;
            }
            proof {
                assert(all.take(i as int) =~= all);
            }
        },
    }
    Ok(r)
}

impl EncoderConfig {
    /// The configuration that settings give.
    pub fn from_raw(raw: RawEncoderConfig) -> (r: Result<EncoderConfig, ConfigError>)
        requires
            raw.layer_types is None && raw.num_hidden_layers > 0
                ==> raw.global_attn_every_n_layers > 0,
        ensures
            match r {
                Ok(c) => encoder_of(raw) == Ok::<EncoderV, ConfigErrorV>(c@),
                Err(e) => encoder_of(raw) == Err::<EncoderV, ConfigErrorV>(e@),
            },
    {
        match &raw.hidden_activation {
            Some(a) => {
                if !same(a.as_str(), "gelu") {
                    return Err(ConfigError::Activation(a.clone()));
                }
            },
            None => {},
        }
        let local_layers = match read_layers(
            &raw.layer_types,
            raw.num_hidden_layers,
            raw.global_attn_every_n_layers,
        ) {
            Ok(v) => v,
            Err(e) => return Err(e),
        };
        let global_rope_theta = pick_theta(
            &raw.rope_parameters,
            "full_attention",
            raw.global_rope_theta,
            "160000.0",
        );
        let local_rope_theta = pick_theta(
            &raw.rope_parameters,
            "sliding_attention",
            raw.local_rope_theta,
            "10000.0",
        );
        let norm_eps = match raw.norm_eps {
            Some(n) => n,
            None => match raw.layer_norm_eps {
                Some(n) => n,
                None => Num::Float("1e-5".to_owned()),
            },
        };
        Ok(
            EncoderConfig {
                vocab_size: raw.vocab_size,
                hidden_size: raw.hidden_size,
                num_hidden_layers: raw.num_hidden_layers,
                num_attention_heads: raw.num_attention_heads,
                intermediate_size: raw.intermediate_size,
                max_position_embeddings: raw.max_position_embeddings,
                norm_eps,
                norm_bias: raw.norm_bias,
                attention_bias: raw.attention_bias,
                mlp_bias: raw.mlp_bias,
                pad_token_id: match raw.pad_token_id {
                    Some(p) => p,
                    None => 0,
                },
                global_attn_every_n_layers: raw.global_attn_every_n_layers,
                global_rope_theta,
                local_rope_theta,
                local_attention: raw.local_attention,
                local_layers,
            },
        )
    }

    /// The width of an attention head.
    pub fn head_dim(&self) -> (n: usize)
        requires
            self.num_attention_heads > 0,
        ensures
            n == self.hidden_size as int / self.num_attention_heads as int,
    {
        self.hidden_size / self.num_attention_heads
    }
}

// ---------------------------------------------------------------------------------------------
// What settings mean

/// A temperature goes by the name of its question's type and the number of its options: two or
/// fewer, three to five, six to ten, or more.
pub proof fn lemma_temperatures_are_named_by_type_and_options(k: nat)
    ensures
        k <= 2 ==> bucket_name(QType::Choice, k) == "choice"@ + ":"@ + "2"@,
        3 <= k <= 5 ==> bucket_name(QType::Choice, k) == "choice"@ + ":"@ + "3-5"@,
        6 <= k <= 10 ==> bucket_name(QType::Choice, k) == "choice"@ + ":"@ + "6-10"@,
        k >= 11 ==> bucket_name(QType::Choice, k) == "choice"@ + ":"@ + "11+"@,
        k <= 2 ==> bucket_name(QType::Score, k) == "score"@ + ":"@ + "2"@,
        3 <= k <= 5 ==> bucket_name(QType::Score, k) == "score"@ + ":"@ + "3-5"@,
        6 <= k <= 10 ==> bucket_name(QType::Score, k) == "score"@ + ":"@ + "6-10"@,
        k >= 11 ==> bucket_name(QType::Score, k) == "score"@ + ":"@ + "11+"@,
        k <= 2 ==> bucket_name(QType::Noul, k) == "noul"@ + ":"@ + "2"@,
        3 <= k <= 5 ==> bucket_name(QType::Noul, k) == "noul"@ + ":"@ + "3-5"@,
        6 <= k <= 10 ==> bucket_name(QType::Noul, k) == "noul"@ + ":"@ + "6-10"@,
        k >= 11 ==> bucket_name(QType::Noul, k) == "noul"@ + ":"@ + "11+"@,
{
}

/// The first entry of a name is the one that is found, and without one nothing is.
pub proof fn lemma_fit_is_found(v: Seq<(Seq<char>, u64)>, key: Seq<char>, i: int)
    requires
        0 <= i <= v.len(),
        forall|j: int| 0 <= j < i ==> (#[trigger] v[j]).0 != key,
        i < v.len() ==> v[i].0 == key,
    ensures
        fit_of(v, key) == (if i < v.len() {
            Some(v[i].1)
        } else {
            None
        }),
    decreases v.len(),
{
    if i > 0 {
        let t = v.skip(1);
        assert(v[0].0 != key);
        assert forall|j: int| 0 <= j < i - 1 implies (#[trigger] t[j]).0 != key by {
            assert(t[j] == v[j + 1]);
        }
        lemma_fit_is_found(t, key, i - 1);
    }
}

/// Answers use the temperature of the question's type and option count when there is one, else that
/// of its type (choice, score and noul, in this order), else one. It is held between one half and
/// five, and with eleven options or more it is at least one unless temperatures were refit.
pub proof fn lemma_answers_use_the_fitted_temperature(cfg: AgentConfig, t: QType, k: nat, i: int)
    requires
        0 <= i <= cfg.temperature_by_options@.len(),
        forall|j: int|
            0 <= j < i ==> (#[trigger] cfg.temperature_by_options@[j]).0@ != bucket_name(t, k),
        i < cfg.temperature_by_options@.len() ==> cfg.temperature_by_options@[i].0@ == bucket_name(
            t,
            k,
        ),
    ensures
        ({
            let own: int = match t {
                QType::Choice => 0,
                QType::Score => 1,
                QType::Noul => 2,
            };
            let x: u64 = if i < cfg.temperature_by_options@.len() {
                cfg.temperature_by_options@[i].1
            } else if own < cfg.temperature@.len() {
                cfg.temperature@[own]
            } else {
                0x3ff0_0000_0000_0000
            };
            let r = cfg.effective(t, k);
            let may_sharpen = k < 11 || cfg.calibration is Some;
            &&& 0x3fe0_0000_0000_0000 <= r <= 0x4014_0000_0000_0000
            &&& 0x3ff0_0000_0000_0000 <= x <= 0x4014_0000_0000_0000 ==> r == x
            &&& 0x3fe0_0000_0000_0000 <= x < 0x3ff0_0000_0000_0000 ==> r == if may_sharpen {
                x
            } else {
                0x3ff0_0000_0000_0000
            }
            &&& x < 0x3fe0_0000_0000_0000 || 0x8000_0000_0000_0000 <= x < 0xfff0_0000_0000_0000
                ==> r == if may_sharpen {
                0x3fe0_0000_0000_0000u64
            } else {
                0x3ff0_0000_0000_0000
            }
            &&& 0x4014_0000_0000_0000 < x < 0x7ff0_0000_0000_0000 ==> r == 0x4014_0000_0000_0000
        }),
{
    let v = fits(cfg.temperature_by_options@);
    assert forall|j: int| 0 <= j < i implies (#[trigger] v[j]).0 != bucket_name(t, k) by {
        assert(v[j].0 == cfg.temperature_by_options@[j].0@);
    }
    lemma_fit_is_found(v, bucket_name(t, k), i);
}

/// Layers see a local window exactly when their type says so; without types every layer does but
/// the first of each so many. A list of another length than the layers, or with an unknown type, is
/// refused.
pub proof fn lemma_layers_are_local_by_their_type(
    types: Option<Seq<Seq<char>>>,
    layers: nat,
    every: nat,
    i: int,
)
    requires
        0 <= i < layers,
    ensures
        local_layers_of(types, layers, every) matches Ok(v) ==> {
            &&& v.len() == layers
            &&& types matches Some(t) ==> {
                &&& t.len() == layers
                &&& v[i] ==> t[i] == "sliding_attention"@
                &&& !v[i] ==> t[i] == "full_attention"@
            }
            &&& types is None && every > 0 ==> (v[i] <==> i % every as int != 0)
        },
        types matches Some(t) ==> t.len() != layers ==> local_layers_of(types, layers, every) is Err,
        types matches Some(t) ==> t[i] != "sliding_attention"@ && t[i] != "full_attention"@ ==>
            local_layers_of(types, layers, every) is Err,
{
    if let Some(t) = types {
        if t.len() == layers {
            lemma_kinds_follow(t, i);
        }
    }
}

proof fn lemma_kinds_follow(types: Seq<Seq<char>>, i: int)
    requires
        0 <= i < types.len(),
    ensures
        kinds(types) matches Ok(v) ==> {
            &&& v.len() == types.len()
            &&& v[i] ==> types[i] == "sliding_attention"@
            &&& !v[i] ==> types[i] == "full_attention"@
        },
        types[i] != "sliding_attention"@ && types[i] != "full_attention"@ ==> kinds(types) is Err,
    decreases types.len(),
{
    lemma_kinds_len(types);
    if i < types.len() - 1 {
        lemma_kinds_follow(types.drop_last(), i);
    } else {
        lemma_kinds_len(types.drop_last());
    }
}

proof fn lemma_kinds_len(types: Seq<Seq<char>>)
    ensures
        kinds(types) matches Ok(v) ==> v.len() == types.len(),
    decreases types.len(),
{
    if types.len() > 0 {
        lemma_kinds_len(types.drop_last());
    }
}

/// An encoder has the sizes that its settings give it. The base of each sort of attention is the
/// one that the rope parameters give that sort, or else the flat one, or else the usual one.
pub proof fn lemma_encoders_are_as_their_settings_say(
    raw: RawEncoderConfig,
    o: Seq<(Seq<char>, JsonV)>,
    p: Seq<(Seq<char>, JsonV)>,
    n: NumV,
)
    ensures
        raw.hidden_activation matches Some(a) ==> a@ != "gelu"@ ==> encoder_of(raw) is Err,
        encoder_of(raw) matches Ok(c) ==> {
            &&& c.vocab_size == raw.vocab_size
            &&& c.hidden_size == raw.hidden_size
            &&& c.num_hidden_layers == raw.num_hidden_layers
            &&& c.num_attention_heads == raw.num_attention_heads
            &&& c.intermediate_size == raw.intermediate_size
            &&& c.max_position_embeddings == raw.max_position_embeddings
            &&& c.norm_bias == raw.norm_bias
            &&& c.attention_bias == raw.attention_bias
            &&& c.mlp_bias == raw.mlp_bias
            &&& c.global_attn_every_n_layers == raw.global_attn_every_n_layers
            &&& c.local_attention == raw.local_attention
            &&& raw.pad_token_id matches Some(id) ==> c.pad_token_id == id
            &&& raw.pad_token_id is None ==> c.pad_token_id == 0
            &&& raw.norm_eps matches Some(e) ==> c.norm_eps == e@
            &&& raw.norm_eps is None && raw.layer_norm_eps is Some ==> c.norm_eps
                == raw.layer_norm_eps->0@
            &&& raw.rope_parameters is None && raw.global_rope_theta is Some ==> c.global_rope_theta
                == raw.global_rope_theta->0@
            &&& raw.rope_parameters is None && raw.local_rope_theta is Some ==> c.local_rope_theta
                == raw.local_rope_theta->0@
            &&& raw.rope_parameters is None && raw.global_rope_theta is None ==> c.global_rope_theta
                == NumV::Float("160000.0"@)
            &&& raw.rope_parameters is None && raw.local_rope_theta is None ==> c.local_rope_theta
                == NumV::Float("10000.0"@)
            &&& raw.rope_parameters is Some && raw.rope_parameters->0@ == JsonV::Object(o)
                && json::member(p, "rope_theta"@) == Some(JsonV::Number(n)) ==> {
                &&& json::member(o, "full_attention"@) == Some(JsonV::Object(p)) ==>
                    c.global_rope_theta == n
                &&& json::member(o, "sliding_attention"@) == Some(JsonV::Object(p)) ==>
                    c.local_rope_theta == n
            }
        },
{
}

} // verus!
